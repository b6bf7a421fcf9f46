//! Bottom-to-top straight-alpha compositing of the reconstructed layers
//! into one RGBA buffer.
//!
//! Layer pixels arrive in BGRA channel order and the output is RGBA.  A
//! source pixel with alpha 0 leaves the destination untouched; one with
//! alpha 255, or falling on a destination pixel with alpha 0, replaces it
//! outright; any other pair is blended with the straight-alpha formula,
//! carried out in exact integer arithmetic with truncating division.
use vstd::prelude::*;

use vstd::pervasive::VecAdditionalExecFns;

use crate::pdn_layers::zeros;

verus! {

/// Numerator of the blended alpha, on a 0..255*255 scale: the source alpha
/// plus whatever the destination alpha keeps of the remaining coverage.
pub open spec fn blend_alpha_num(sa: u8, da: u8) -> int {
    sa * 255 + da * (255 - sa)
}

/// One blended color channel: the channels weighted by their alphas,
/// normalized by the blended alpha, truncated.
pub open spec fn blend_channel(sc: u8, dc: u8, sa: u8, da: u8) -> int
    recommends
        sa > 0,
{
    (sc * sa * 255 + dc * da * (255 - sa)) / blend_alpha_num(sa, da)
}

/// The RGBA destination pixel after one BGRA source pixel lands on it.
pub open spec fn composite_pixel(
    dr: u8,
    dg: u8,
    db: u8,
    da: u8,
    sb: u8,
    sg: u8,
    sr: u8,
    sa: u8,
) -> (u8, u8, u8, u8) {
    if sa == 0 {
        (dr, dg, db, da)
    } else if sa == 255 || da == 0 {
        (sr, sg, sb, sa)
    } else {
        (
            blend_channel(sr, dr, sa, da) as u8,
            blend_channel(sg, dg, sa, da) as u8,
            blend_channel(sb, db, sa, da) as u8,
            (blend_alpha_num(sa, da) / 255) as u8,
        )
    }
}

/// The destination buffer after the source layer's pixels from byte offset
/// `j` on have landed on it, four bytes per step, stopping where either
/// buffer runs out of whole pixels.
pub open spec fn apply_layer_from(dst: Seq<u8>, layer: Seq<u8>, j: int) -> Seq<u8>
    decreases dst.len() - j,
{
    let lim = if layer.len() < dst.len() {
        layer.len() as int
    } else {
        dst.len() as int
    };
    if j < 0 || j + 3 >= lim {
        dst
    } else {
        let px = composite_pixel(
            dst[j],
            dst[j + 1],
            dst[j + 2],
            dst[j + 3],
            layer[j],
            layer[j + 1],
            layer[j + 2],
            layer[j + 3],
        );
        let d2 = dst.update(j, px.0).update(j + 1, px.1).update(j + 2, px.2).update(j + 3, px.3);
        apply_layer_from(d2, layer, j + 4)
    }
}

/// The destination buffer after one whole source layer has landed on it.
pub open spec fn apply_layer(dst: Seq<u8>, layer: Seq<u8>) -> Seq<u8> {
    apply_layer_from(dst, layer, 0)
}

/// The composited RGBA buffer of `e` bytes: starting from all zeroes, the
/// layers land bottom to top in the order given.
pub open spec fn composited(layers: Seq<Seq<u8>>, e: int) -> Seq<u8>
    decreases layers.len(),
{
    if layers.len() == 0 {
        zeros(e)
    } else {
        apply_layer(composited(layers.drop_last(), e), layers.last())
    }
}

/// Landing a layer never changes the destination buffer's length.
pub proof fn lemma_apply_layer_from_len(dst: Seq<u8>, layer: Seq<u8>, j: int)
    ensures
        apply_layer_from(dst, layer, j).len() == dst.len(),
    decreases dst.len() - j,
{
    let lim = if layer.len() < dst.len() {
        layer.len() as int
    } else {
        dst.len() as int
    };
    if j < 0 || j + 3 >= lim {
    } else {
        let px = composite_pixel(
            dst[j],
            dst[j + 1],
            dst[j + 2],
            dst[j + 3],
            layer[j],
            layer[j + 1],
            layer[j + 2],
            layer[j + 3],
        );
        let d2 = dst.update(j, px.0).update(j + 1, px.1).update(j + 2, px.2).update(j + 3, px.3);
        lemma_apply_layer_from_len(d2, layer, j + 4);
    }
}

/// The composited buffer always has exactly `e` bytes.
pub proof fn lemma_composited_len(layers: Seq<Seq<u8>>, e: int)
    requires
        e >= 0,
    ensures
        composited(layers, e).len() == e,
    decreases layers.len(),
{
    if layers.len() == 0 {
    } else {
        lemma_composited_len(layers.drop_last(), e);
        lemma_apply_layer_from_len(composited(layers.drop_last(), e), layers.last(), 0);
    }
}

/// Every pixel of the layer is fully opaque.
pub open spec fn fully_opaque(layer: Seq<u8>) -> bool {
    forall|p: int| 0 <= p && 4 * p + 3 < layer.len() ==> #[trigger] layer[4 * p + 3] == 255
}

/// The layer's pixels read as RGBA: each four-byte BGRA pixel with its
/// first and third channels exchanged.
pub open spec fn bgra_as_rgba(layer: Seq<u8>) -> Seq<u8> {
    Seq::new(
        layer.len(),
        |i: int|
            {
                let p = i - (i % 4);
                if i % 4 == 0 {
                    layer[p + 2]
                } else if i % 4 == 1 {
                    layer[p + 1]
                } else if i % 4 == 2 {
                    layer[p]
                } else {
                    layer[p + 3]
                }
            },
    )
}

/// The buffer after an everywhere-opaque layer has landed from pixel
/// offset `j` on: every pixel from `j` on is the layer's, converted to
/// RGBA, and the bytes before `j` are untouched.
proof fn lemma_opaque_apply_from(dst: Seq<u8>, layer: Seq<u8>, j: int)
    requires
        dst.len() == layer.len(),
        layer.len() % 4 == 0,
        fully_opaque(layer),
        0 <= j,
        j % 4 == 0,
    ensures
        apply_layer_from(dst, layer, j) =~= Seq::new(
            dst.len(),
            |i: int|
                if i < j {
                    dst[i]
                } else {
                    bgra_as_rgba(layer)[i]
                },
        ),
    decreases dst.len() - j,
{
    let len = dst.len() as int;
    if j + 3 >= len {
        assert(j >= len) by (nonlinear_arith)
            requires
                j % 4 == 0,
                len % 4 == 0,
                j + 3 >= len,
                j >= 0,
        ;
    } else {
        assert(4 * (j / 4) + 3 == j + 3);
        assert(layer[j + 3] == 255);
        let px = composite_pixel(
            dst[j],
            dst[j + 1],
            dst[j + 2],
            dst[j + 3],
            layer[j],
            layer[j + 1],
            layer[j + 2],
            layer[j + 3],
        );
        let d2 = dst.update(j, px.0).update(j + 1, px.1).update(j + 2, px.2).update(j + 3, px.3);
        lemma_opaque_apply_from(d2, layer, j + 4);
        assert(((j + 1) % 4) == 1 && ((j + 2) % 4) == 2 && ((j + 3) % 4) == 3) by (nonlinear_arith)
            requires
                j % 4 == 0,
                j >= 0,
        ;
    }
}

/// A single fully-opaque layer landing on top replaces every pixel
/// beneath it: the composited image is that layer alone, read as RGBA,
/// whatever the lower layers held.
pub proof fn lemma_opaque_top_layer_replaces(layers: Seq<Seq<u8>>, top: Seq<u8>, e: int)
    requires
        e >= 0,
        e % 4 == 0,
        top.len() == e,
        fully_opaque(top),
    ensures
        composited(layers.push(top), e) == bgra_as_rgba(top),
{
    lemma_composited_len(layers, e);
    assert(layers.push(top).drop_last() =~= layers);
    assert(layers.push(top).last() == top);
    lemma_opaque_apply_from(composited(layers, e), top, 0);
    assert(apply_layer_from(composited(layers, e), top, 0) =~= bgra_as_rgba(top));
}

/// One blended channel, computed without overflow.
fn blend_channel_value(sc: u8, dc: u8, sa: u8, da: u8) -> (r: u8)
    requires
        sa > 0,
    ensures
        r as int == blend_channel(sc, dc, sa, da),
{
    let sc32 = sc as u32;
    let dc32 = dc as u32;
    let sa32 = sa as u32;
    let da32 = da as u32;
    proof {
        assert(sc32 * sa32 <= 255 * 255 && sc32 * sa32 * 255 <= 255 * 255 * 255 && sc32 * sa32
            * 255 <= 255 * (sa32 * 255) && dc32 * da32 <= 255 * 255 && dc32 * da32 * (255 - sa32)
            <= 255 * (da32 * (255 - sa32)) && dc32 * da32 * (255 - sa32) <= 255 * 255 * 255
            && da32 * (255 - sa32) <= 255 * 255) by (nonlinear_arith)
            requires
                sc32 <= 255,
                dc32 <= 255,
                sa32 <= 255,
                da32 <= 255,
                sa32 >= 1,
        ;
    }
    let num = sc32 * sa32 * 255 + dc32 * da32 * (255 - sa32);
    let den = sa32 * 255 + da32 * (255 - sa32);
    let q = num / den;
    proof {
        assert(num <= 255 * den);
        vstd::arithmetic::div_mod::lemma_div_is_ordered(num as int, 255 * den, den as int);
        vstd::arithmetic::div_mod::lemma_div_multiples_vanish(255, den as int);
        assert(den * 255 == 255 * den) by (nonlinear_arith);
        assert(q <= 255);
    }
    q as u8
}

/// The blended alpha byte, computed without overflow.
fn blend_alpha_value(sa: u8, da: u8) -> (r: u8)
    requires
        sa > 0,
    ensures
        r as int == blend_alpha_num(sa, da) / 255,
{
    let sa32 = sa as u32;
    let da32 = da as u32;
    proof {
        assert(da32 * (255 - sa32) <= 255 * (255 - sa32)) by (nonlinear_arith)
            requires
                da32 <= 255,
                sa32 <= 255,
        ;
    }
    let num = sa32 * 255 + da32 * (255 - sa32);
    let q = num / 255;
    proof {
        assert(num <= 255 * 255);
        vstd::arithmetic::div_mod::lemma_div_is_ordered(num as int, 255int * 255, 255int);
        assert(q <= 255);
    }
    q as u8
}

/// Composites the layers, bottom to top in the order given, into a single
/// straight-alpha RGBA buffer of `expected_size` bytes that starts out all
/// zero.  Source pixels are read as BGRA; a source alpha of 0 leaves the
/// destination pixel, a source alpha of 255 or a destination alpha of 0
/// replaces it, and anything else is alpha-blended with truncating integer
/// arithmetic.
pub fn composite_layers(layers: &[Vec<u8>], expected_size: usize) -> (rgba: Vec<u8>)
    ensures
        rgba@ == composited(layers.deep_view(), expected_size as int),
{
    let ghost dv = layers.deep_view();
    let ghost e = expected_size as int;
    let mut rgba: Vec<u8> = Vec::new();
    while rgba.len() < expected_size
        invariant
            rgba@.len() <= expected_size,
            rgba@ =~= zeros(rgba@.len() as int),
        decreases expected_size - rgba@.len(),
    {
        rgba.push(0);
    }
    proof {
        assert(rgba@ =~= zeros(e));
        assert(dv.take(0) =~= Seq::<Seq<u8>>::empty());
    }
    let mut li: usize = 0;
    while li < layers.len()
        invariant
            dv == layers.deep_view(),
            e == expected_size as int,
            li <= layers@.len(),
            rgba@ == composited(dv.take(li as int), e),
            rgba@.len() == expected_size,
        decreases layers@.len() - li,
    {
        let layer = &layers[li];
        proof {
            assert(dv.take(li + 1).drop_last() =~= dv.take(li as int));
            assert(dv.take(li + 1).last() == dv[li as int]);
            assert(dv[li as int] =~= layer@);
        }
        let ghost dst0 = rgba@;
        let lim = if layer.len() < expected_size {
            layer.len()
        } else {
            expected_size
        };
        let mut j: usize = 0;
        while j < lim && lim - j >= 4
            invariant
                e == expected_size as int,
                lim <= layer@.len(),
                lim <= expected_size,
                lim == (if layer@.len() < e {
                    layer@.len() as int
                } else {
                    e
                }),
                j <= lim,
                rgba@.len() == expected_size,
                apply_layer_from(dst0, layer@, 0) == apply_layer_from(rgba@, layer@, j as int),
            decreases lim - j,
        {
            let ghost before = rgba@;
            let sb = layer[j];
            let sg = layer[j + 1];
            let sr = layer[j + 2];
            let sa = layer[j + 3];
            if sa != 0 {
                let da = rgba[j + 3];
                if sa == 255 || da == 0 {
                    rgba.set(j, sr);
                    rgba.set(j + 1, sg);
                    rgba.set(j + 2, sb);
                    rgba.set(j + 3, sa);
                } else {
                    let dr = rgba[j];
                    let dg = rgba[j + 1];
                    let db = rgba[j + 2];
                    rgba.set(j, blend_channel_value(sr, dr, sa, da));
                    rgba.set(j + 1, blend_channel_value(sg, dg, sa, da));
                    rgba.set(j + 2, blend_channel_value(sb, db, sa, da));
                    rgba.set(j + 3, blend_alpha_value(sa, da));
                }
            }
            proof {
                let px = composite_pixel(
                    before[j as int],
                    before[j + 1],
                    before[j + 2],
                    before[j + 3],
                    layer@[j as int],
                    layer@[j + 1],
                    layer@[j + 2],
                    layer@[j + 3],
                );
                let d2 = before.update(j as int, px.0).update(j + 1, px.1).update(
                    j + 2,
                    px.2,
                ).update(j + 3, px.3);
                assert(rgba@ =~= d2);
                assert(apply_layer_from(before, layer@, j as int) == apply_layer_from(
                    d2,
                    layer@,
                    j + 4,
                ));
            }
            j = j + 4;
        }
        proof {
            assert(apply_layer_from(rgba@, layer@, j as int) == rgba@);
            assert(composited(dv.take(li + 1), e) == apply_layer_from(dst0, layer@, 0));
        }
        li = li + 1;
    }
    proof {
        assert(dv.take(li as int) =~= dv);
    }
    rgba
}

} // verus!

//! Decoder for the layered raster-image container format.
//!
//! The container starts with a four-byte magic and then keeps its metadata
//! inside an opaque object-serialization stream, so the decoder recovers
//! the image dimensions heuristically, locates the independently
//! gzip-compressed pixel runs by signature scanning, inflates them,
//! repairs misaligned or swapped-dimension layer data, and composites the
//! layers bottom to top into one straight-alpha RGBA bitmap.
use vstd::prelude::*;

use crate::b64::base64_encode;
use crate::b64::base64_of;
use crate::inflate::gunzip_from;
use crate::inflate::gunzip_of;
use crate::pdn_compose::composite_layers;
use crate::pdn_compose::composited;
use crate::pdn_compose::lemma_composited_len;
use crate::pdn_dims::extract_pdn_dimensions;
use crate::pdn_dims::extracted_dimensions;
use crate::pdn_layers::assemble_pdn_layers;
use crate::pdn_layers::assembled_layers;
use crate::pdn_layers::maybe_swap_pdn_dimensions_by_alignment;
use crate::pdn_layers::sat_mul;
use crate::pdn_layers::saturating_mul;
use crate::pdn_layers::should_swap_dimensions;

verus! {

/// Why a decode failed: one variant per stage that can give up.
#[derive(Clone, Copy, Debug, PartialEq, Eq, Structural)]
pub enum PdnError {
    /// The buffer does not begin with the container's four-byte magic.
    FormatMismatch,
    /// Neither recovery pass yielded usable dimensions, or the recovered
    /// values were zero or implausibly large.
    DimensionsNotFound,
    /// No gzip signature was found anywhere after the header.
    NoCompressedData,
    /// Every candidate stream failed to inflate, or inflated to nothing.
    NothingDecompressed,
    /// The decompressed data could not be cut into a single layer.
    NoLayersReconstructed,
}

/// A decoded image: dimensions, the composited straight-alpha RGBA pixels,
/// and the same pixels base64-encoded for transfer across a process
/// boundary.
#[derive(Debug)]
pub struct PdnImage {
    /// Width in pixels.
    pub width: usize,
    /// Height in pixels.
    pub height: usize,
    /// `width * height * 4` bytes of RGBA, row by row.
    pub rgba: Vec<u8>,
    /// The RGBA bytes in standard padded base64.
    pub rgba_base64: String,
}

/// The buffer is long enough for the fixed header and starts with the
/// magic bytes `PDN3`.
pub open spec fn has_pdn_magic(s: Seq<u8>) -> bool {
    &&& s.len() >= 24
    &&& s[0] == 0x50u8
    &&& s[1] == 0x44u8
    &&& s[2] == 0x4Eu8
    &&& s[3] == 0x33u8
}

/// The candidate compressed-stream offsets found scanning from `i`: each
/// match of the three-byte gzip signature, with the scan skipping 18 bytes
/// after a match so it does not re-match inside the same stream's header.
pub open spec fn gzip_offsets_from(s: Seq<u8>, i: int) -> Seq<int>
    decreases s.len() + 18 - i,
{
    if i < 0 || i + 2 >= s.len() {
        Seq::empty()
    } else if s[i] == 0x1Fu8 && s[i + 1] == 0x8Bu8 && s[i + 2] == 0x08u8 {
        seq![i] + gzip_offsets_from(s, i + 18)
    } else {
        gzip_offsets_from(s, i + 1)
    }
}

/// The decompressed runs of the candidate streams at `offs`, in order,
/// keeping only candidates that inflate to something non-empty.
pub open spec fn inflate_candidates(s: Seq<u8>, offs: Seq<int>) -> Seq<Seq<u8>>
    decreases offs.len(),
{
    if offs.len() == 0 {
        Seq::empty()
    } else {
        inflate_candidates(s, offs.drop_last()) + (match gunzip_of(s.skip(offs.last())) {
            Some(v) => if v.len() > 0 {
                seq![v]
            } else {
                Seq::empty()
            },
            None => Seq::empty(),
        })
    }
}

/// Some run is long enough to hold a row yet not a whole number of rows.
pub open spec fn any_row_misaligned(cs: Seq<Seq<u8>>, row: int) -> bool {
    exists|i: int|
        0 <= i < cs.len() && (#[trigger] cs[i]).len() >= row && cs[i].len() as int % row != 0
}

/// The whole decode pipeline as a function of the input bytes: either the
/// final `(width, height, rgba)` triple or the error of the first stage
/// that gives up.
pub open spec fn decode_spec(s: Seq<u8>) -> Result<(usize, usize, Seq<u8>), PdnError> {
    if !has_pdn_magic(s) {
        Err(PdnError::FormatMismatch)
    } else {
        match extracted_dimensions(s) {
            None => Err(PdnError::DimensionsNotFound),
            Some(d) => {
                if d.0 == 0 || d.1 == 0 || d.0 > 65536 || d.1 > 65536 {
                    Err(PdnError::DimensionsNotFound)
                } else {
                    let offs = gzip_offsets_from(s, 24);
                    if offs.len() == 0 {
                        Err(PdnError::NoCompressedData)
                    } else {
                        let chunks = inflate_candidates(s, offs);
                        if chunks.len() == 0 {
                            Err(PdnError::NothingDecompressed)
                        } else {
                            let swap = should_swap_dimensions(chunks, d.0 as usize, d.1 as usize);
                            let w = if swap {
                                d.1 as usize
                            } else {
                                d.0 as usize
                            };
                            let h = if swap {
                                d.0 as usize
                            } else {
                                d.1 as usize
                            };
                            let e = sat_mul(sat_mul(w, h), 4);
                            let row = sat_mul(w, 4);
                            let mis = any_row_misaligned(chunks, row as int);
                            let first = assembled_layers(chunks, w, h, mis);
                            let layers = if first.len() == 0 {
                                assembled_layers(chunks, w, h, false)
                            } else {
                                first
                            };
                            if layers.len() == 0 {
                                Err(PdnError::NoLayersReconstructed)
                            } else {
                                Ok((w, h, composited(layers, e as int)))
                            }
                        }
                    }
                }
            },
        }
    }
}

/// Whether some run holds at least one row but not a whole number of rows.
fn any_misaligned(chunks: &[Vec<u8>], row: usize) -> (b: bool)
    requires
        row > 0,
    ensures
        b == any_row_misaligned(chunks.deep_view(), row as int),
{
    let ghost dv = chunks.deep_view();
    let mut m: usize = 0;
    while m < chunks.len()
        invariant
            row > 0,
            dv == chunks.deep_view(),
            m <= chunks@.len(),
            forall|t: int|
                0 <= t < m ==> !((#[trigger] dv[t]).len() >= row && dv[t].len() as int % (
                row as int) != 0),
        decreases chunks@.len() - m,
    {
        let c = &chunks[m];
        proof {
            assert(dv[m as int] =~= c@);
        }
        if c.len() >= row && c.len() % row != 0 {
            return true;
        }
        m = m + 1;
    }
    false
}

/// Decodes one image-editor container held in `data`.
///
/// The stages run in order: magic check, dimension recovery, gzip
/// signature scan, decompression, swap correction, layer assembly (with a
/// trim-free retry), compositing, and base64 transfer encoding.  The
/// result is exactly what [`decode_spec`] assigns to the buffer, so
/// decoding the same bytes twice yields identical output.  The address
/// space must be wide enough for the largest admissible image buffer,
/// `65536 * 65536 * 4` bytes.
pub fn decode_pdn(data: &[u8]) -> (r: Result<PdnImage, PdnError>)
    requires
        usize::MAX >= 0x8_0000_0000,
    ensures
        (match r {
            Ok(img) => {
                &&& decode_spec(data@) == Ok::<_, PdnError>(
                    (img.width, img.height, img.rgba@),
                )
                &&& img.rgba_base64@ == base64_of(img.rgba@)
                &&& img.rgba@.len() == sat_mul(sat_mul(img.width, img.height), 4)
            },
            Err(e) => decode_spec(data@) == Err::<(usize, usize, Seq<u8>), _>(e),
        }),
{
    let ghost s = data@;
    if data.len() < 24 || !(data[0] == 0x50 && data[1] == 0x44 && data[2] == 0x4E && data[3]
        == 0x33) {
        return Err(PdnError::FormatMismatch);
    }
    let d = match extract_pdn_dimensions(data) {
        Some(d) => d,
        None => {
            return Err(PdnError::DimensionsNotFound);
        },
    };
    if d.0 == 0 || d.1 == 0 || d.0 > 65536 || d.1 > 65536 {
        return Err(PdnError::DimensionsNotFound);
    }
    let mut offsets: Vec<usize> = Vec::new();
    let mut i: usize = 24;
    while i < data.len() && data.len() - i > 2
        invariant
            s == data@,
            24 <= i,
            forall|t: int| 0 <= t < offsets@.len() ==> #[trigger] offsets@[t] < data@.len(),
            gzip_offsets_from(s, 24) == offsets@.map_values(|x: usize| x as int)
                + gzip_offsets_from(s, i as int),
        decreases data@.len() + 18 - i,
    {
        let ghost offs_int = offsets@.map_values(|x: usize| x as int);
        if data[i] == 0x1F && data[i + 1] == 0x8B && data[i + 2] == 0x08 {
            offsets.push(i);
            let next = match i.checked_add(18) {
                Some(v) => v,
                None => usize::MAX,
            };
            proof {
                assert(offsets@.map_values(|x: usize| x as int) =~= offs_int + seq![i as int]);
                assert((offs_int + seq![i as int]) + gzip_offsets_from(s, i + 18) =~= offs_int + (
                seq![i as int] + gzip_offsets_from(s, i + 18)));
                vstd::slice::axiom_spec_len(data);
                assert(s.len() <= usize::MAX);
                if i + 18 > usize::MAX {
                    assert(gzip_offsets_from(s, i + 18) =~= Seq::<int>::empty());
                    assert(gzip_offsets_from(s, next as int) =~= Seq::<int>::empty());
                }
            }
            i = next;
        } else {
            i = i + 1;
        }
    }
    proof {
        assert(gzip_offsets_from(s, i as int) =~= Seq::<int>::empty());
        assert(gzip_offsets_from(s, 24) =~= offsets@.map_values(|x: usize| x as int));
    }
    if offsets.len() == 0 {
        return Err(PdnError::NoCompressedData);
    }
    let ghost offs_int = offsets@.map_values(|x: usize| x as int);
    let mut chunks: Vec<Vec<u8>> = Vec::new();
    let mut k: usize = 0;
    proof {
        assert(offs_int.take(0) =~= Seq::<int>::empty());
        assert(chunks.deep_view() =~= Seq::<Seq<u8>>::empty());
    }
    while k < offsets.len()
        invariant
            s == data@,
            offs_int == offsets@.map_values(|x: usize| x as int),
            forall|t: int| 0 <= t < offsets@.len() ==> #[trigger] offsets@[t] < data@.len(),
            k <= offsets@.len(),
            chunks.deep_view() == inflate_candidates(s, offs_int.take(k as int)),
        decreases offsets@.len() - k,
    {
        let off = offsets[k];
        let ghost prev = chunks.deep_view();
        proof {
            assert(offs_int.take(k + 1).drop_last() =~= offs_int.take(k as int));
            assert(offs_int.take(k + 1).last() == off as int);
        }
        match gunzip_from(data, off) {
            Some(v) => {
                if v.len() > 0 {
                    let ghost vv = v@;
                    chunks.push(v);
                    proof {
                        assert(chunks.deep_view() =~~= prev.push(vv));
                        assert(prev.push(vv) =~= prev + seq![vv]);
                    }
                } else {
                    proof {
                        assert(chunks.deep_view() =~= prev + Seq::<Seq<u8>>::empty());
                    }
                }
            },
            None => {
                proof {
                    assert(chunks.deep_view() =~= prev + Seq::<Seq<u8>>::empty());
                }
            },
        }
        k = k + 1;
    }
    proof {
        assert(offs_int.take(k as int) =~= offs_int);
    }
    if chunks.len() == 0 {
        return Err(PdnError::NothingDecompressed);
    }
    let ghost cdv = chunks.deep_view();
    let mut width: usize = d.0 as usize;
    let mut height: usize = d.1 as usize;
    let cs = chunks.as_slice();
    proof {
        assert(cs.deep_view() =~= cdv);
    }
    maybe_swap_pdn_dimensions_by_alignment(cs, &mut width, &mut height);
    let expected_size = saturating_mul(saturating_mul(width, height), 4);
    let row_bytes = saturating_mul(width, 4);
    proof {
        assert(width * height <= 0x1_0000_0000 && width * 4 <= 0x4_0000_0000) by (nonlinear_arith)
            requires
                width <= 65536,
                height <= 65536,
        ;
        assert(expected_size <= 0x4_0000_0000);
        assert(row_bytes >= 4) by (nonlinear_arith)
            requires
                width >= 1,
                row_bytes == (if width * 4 > usize::MAX {
                    usize::MAX as int
                } else {
                    width * 4
                }),
                usize::MAX >= 0x8_0000_0000,
        ;
    }
    let mis = any_misaligned(cs, row_bytes);
    let mut layers = assemble_pdn_layers(cs, width, height, mis);
    if layers.len() == 0 {
        layers = assemble_pdn_layers(cs, width, height, false);
        if layers.len() == 0 {
            return Err(PdnError::NoLayersReconstructed);
        }
    }
    let ghost ldv = layers.deep_view();
    let ls = layers.as_slice();
    proof {
        assert(ls.deep_view() =~= ldv);
    }
    let rgba = composite_layers(ls, expected_size);
    proof {
        lemma_composited_len(ldv, expected_size as int);
        vstd::arithmetic::div_mod::lemma_div_is_ordered(
            rgba@.len() as int + 2,
            0x4_0000_0002int,
            3int,
        );
    }
    let encoded = base64_encode(rgba.as_slice());
    Ok(PdnImage { width, height, rgba, rgba_base64: encoded })
}

/// A buffer that does not begin with the four-byte magic is rejected as
/// `FormatMismatch` before any dimension recovery runs.
pub proof fn lemma_bad_magic_fails(s: Seq<u8>)
    requires
        !has_pdn_magic(s),
    ensures
        decode_spec(s) == Err::<(usize, usize, Seq<u8>), PdnError>(PdnError::FormatMismatch),
{
}

/// A buffer with usable magic and dimensions but no gzip signature match
/// fails with `NoCompressedData`.
pub proof fn lemma_no_signature_fails(s: Seq<u8>)
    requires
        has_pdn_magic(s),
        (extracted_dimensions(s) matches Some(d) && 1 <= d.0 <= 65536 && 1 <= d.1 <= 65536),
        gzip_offsets_from(s, 24).len() == 0,
    ensures
        decode_spec(s) == Err::<(usize, usize, Seq<u8>), PdnError>(PdnError::NoCompressedData),
{
}

/// When no candidate inflates to anything, no run survives.
proof fn lemma_inflate_all_fail(s: Seq<u8>, offs: Seq<int>)
    requires
        forall|i: int|
            0 <= i < offs.len() ==> (#[trigger] gunzip_of(s.skip(offs[i])) is None || (gunzip_of(
                s.skip(offs[i]),
            ) matches Some(v) && v.len() == 0)),
    ensures
        inflate_candidates(s, offs).len() == 0,
    decreases offs.len(),
{
    if offs.len() > 0 {
        assert(offs[offs.len() - 1] == offs.last());
        lemma_inflate_all_fail(s, offs.drop_last());
    }
}

/// A buffer with usable magic and dimensions whose every gzip candidate
/// fails to inflate (or inflates to nothing) fails with
/// `NothingDecompressed`.
pub proof fn lemma_nothing_decompressed_fails(s: Seq<u8>)
    requires
        has_pdn_magic(s),
        (extracted_dimensions(s) matches Some(d) && 1 <= d.0 <= 65536 && 1 <= d.1 <= 65536),
        gzip_offsets_from(s, 24).len() > 0,
        forall|i: int|
            0 <= i < gzip_offsets_from(s, 24).len() ==> (#[trigger] gunzip_of(
                s.skip(gzip_offsets_from(s, 24)[i]),
            ) is None || (gunzip_of(s.skip(gzip_offsets_from(s, 24)[i])) matches Some(v)
                && v.len() == 0)),
    ensures
        decode_spec(s) == Err::<(usize, usize, Seq<u8>), PdnError>(PdnError::NothingDecompressed),
{
    lemma_inflate_all_fail(s, gzip_offsets_from(s, 24));
}

/// Decoding is a function of the input bytes alone, so decoding the same
/// buffer twice yields identical results.
pub proof fn lemma_decode_deterministic(
    s: Seq<u8>,
    r1: Result<(usize, usize, Seq<u8>), PdnError>,
    r2: Result<(usize, usize, Seq<u8>), PdnError>,
)
    requires
        r1 == decode_spec(s),
        r2 == decode_spec(s),
    ensures
        r1 == r2,
{
}

} // verus!

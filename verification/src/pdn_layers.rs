//! Reconstruction of full-image layers from the decompressed byte runs of
//! the image-editor container format.
//!
//! Decompressed runs may carry a few bytes of serialization framing before
//! or after the pixel rows.  A bounded search picks, for each run, the trim
//! that leaves an exact number of rows while discarding as little as
//! possible; the trimmed runs are then concatenated and cut into layers of
//! exactly `width * height * 4` bytes.  A companion heuristic swaps the
//! recovered width and height when the run lengths line up with the rows of
//! the swapped orientation.
use vstd::prelude::*;

verus! {

/// `a * b`, saturating at `usize::MAX`.
pub open spec fn sat_mul(a: usize, b: usize) -> usize {
    if a * b > usize::MAX {
        usize::MAX
    } else {
        (a * b) as usize
    }
}

/// `a * b`, saturating at `usize::MAX`.
pub fn saturating_mul(a: usize, b: usize) -> (r: usize)
    ensures
        r == sat_mul(a, b),
{
    match a.checked_mul(b) {
        Some(v) => v,
        None => usize::MAX,
    }
}

/// Largest number of bytes the trim search may discard from either end of a
/// run of length `len`.
pub open spec fn max_trim_of(len: int) -> int {
    if len - 1 < 64 {
        len - 1
    } else {
        64
    }
}

/// The trim `(lead, trail)` is admissible for a run of `c.len()` bytes with
/// rows of `row` bytes: both discard counts stay within the search bound,
/// some payload remains, and the payload is a whole number of at most 8192
/// rows.
pub open spec fn trim_valid(c: Seq<u8>, row: int, lead: int, trail: int) -> bool {
    let m = max_trim_of(c.len() as int);
    &&& 0 <= lead <= m
    &&& 0 <= trail <= m
    &&& lead + trail < c.len()
    &&& {
        let payload = c.len() - lead - trail;
        &&& payload >= row
        &&& payload % row == 0
        &&& payload / row <= 8192
    }
}

/// `(lead, trail)` is the best admissible trim: it discards the fewest
/// bytes, and among trims discarding equally many it takes the smallest
/// lead.
pub open spec fn trim_best(c: Seq<u8>, row: int, lead: int, trail: int) -> bool {
    &&& trim_valid(c, row, lead, trail)
    &&& forall|l: int, t: int|
        trim_valid(c, row, l, t) ==> lead + trail < l + t || (lead + trail == l + t && lead <= l)
}

/// There is at most one best trim.
pub proof fn lemma_trim_best_unique(c: Seq<u8>, row: int, l1: int, t1: int, l2: int, t2: int)
    requires
        trim_best(c, row, l1, t1),
        trim_best(c, row, l2, t2),
    ensures
        l1 == l2,
        t1 == t2,
{
    assert(trim_valid(c, row, l2, t2));
    assert(trim_valid(c, row, l1, t1));
}

/// The half-open byte range of `c` that the trim search selects as the
/// run's payload: the best admissible trim when one exists; otherwise the
/// longest whole-row prefix, if it holds at least one row; otherwise the
/// run unchanged.  Runs no longer than one row are never trimmed.
pub open spec fn select_payload(c: Seq<u8>, row: int) -> (int, int) {
    if row == 0 || c.len() <= row {
        (0int, c.len() as int)
    } else if exists|l: int, t: int| trim_valid(c, row, l, t) {
        let p = choose|p: (int, int)| trim_best(c, row, p.0, p.1);
        (p.0, c.len() - p.1)
    } else {
        let aligned = c.len() - (c.len() as int % row);
        if aligned >= row {
            (0int, aligned)
        } else {
            (0int, c.len() as int)
        }
    }
}

/// Picks the payload range of one decompressed run: a brute-force search
/// over up to 64 leading and 64 trailing discarded bytes for the
/// combination that leaves an exact multiple of `row_bytes` (at most 8192
/// rows), discarding as little as possible and preferring the smallest
/// leading trim on ties.  When no trim qualifies the run is truncated to
/// the largest whole-row prefix, or returned unchanged if it is shorter
/// than one row.
pub fn select_pdn_chunk_payload(chunk: &[u8], row_bytes: usize) -> (r: (usize, usize))
    ensures
        (r.0 as int, r.1 as int) == select_payload(chunk@, row_bytes as int),
        r.0 <= r.1 <= chunk@.len(),
{
    let len = chunk.len();
    if row_bytes == 0 || len <= row_bytes {
        return (0, len);
    }
    let max_trim = if len - 1 < 64 {
        len - 1
    } else {
        64
    };
    let mut best: Option<(usize, usize)> = None;
    let mut lead: usize = 0;
    while lead <= max_trim
        invariant
            0 < row_bytes < len,
            max_trim == max_trim_of(len as int),
            len == chunk@.len(),
            lead <= max_trim + 1,
            match best {
                None => forall|l: int, t: int|
                    trim_valid(chunk@, row_bytes as int, l, t) ==> l >= lead,
                Some(b) => {
                    &&& trim_valid(chunk@, row_bytes as int, b.0 as int, b.1 as int)
                    &&& (b.0 as int) < lead
                    &&& forall|l: int, t: int|
                        trim_valid(chunk@, row_bytes as int, l, t) && l < lead ==> b.0 + b.1 < l
                            + t || (b.0 + b.1 == l + t && b.0 <= l)
                },
            },
        decreases max_trim + 1 - lead,
    {
        let mut trail: usize = 0;
        while trail <= max_trim
            invariant
                0 < row_bytes < len,
                max_trim == max_trim_of(len as int),
                len == chunk@.len(),
                lead <= max_trim,
                trail <= max_trim + 1,
                match best {
                    None => forall|l: int, t: int|
                        trim_valid(chunk@, row_bytes as int, l, t) ==> l > lead || (l == lead && t
                            >= trail),
                    Some(b) => {
                        &&& trim_valid(chunk@, row_bytes as int, b.0 as int, b.1 as int)
                        &&& ((b.0 as int) < lead || (b.0 == lead && (b.1 as int) < trail))
                        &&& forall|l: int, t: int|
                            trim_valid(chunk@, row_bytes as int, l, t) && (l < lead || (l == lead
                                && t < trail)) ==> b.0 + b.1 < l + t || (b.0 + b.1 == l + t && b.0
                                <= l)
                    },
                },
            decreases max_trim + 1 - trail,
        {
            if lead + trail < len {
                let payload_len = len - lead - trail;
                if payload_len >= row_bytes && payload_len % row_bytes == 0 {
                    let rows = payload_len / row_bytes;
                    if rows <= 8192 {
                        let better = match best {
                            None => true,
                            Some(b) => lead + trail < b.0 + b.1,
                        };
                        if better {
                            best = Some((lead, trail));
                        }
                    }
                }
            }
            trail = trail + 1;
        }
        lead = lead + 1;
    }
    match best {
        Some(b) => {
            proof {
                assert(trim_best(chunk@, row_bytes as int, b.0 as int, b.1 as int));
                let bp = (b.0 as int, b.1 as int);
                assert(trim_best(chunk@, row_bytes as int, bp.0, bp.1));
                assert(exists|p: (int, int)| trim_best(chunk@, row_bytes as int, p.0, p.1));
                let p = choose|p: (int, int)| trim_best(chunk@, row_bytes as int, p.0, p.1);
                lemma_trim_best_unique(chunk@, row_bytes as int, p.0, p.1, b.0 as int, b.1 as int);
            }
            (b.0, len - b.1)
        },
        None => {
            let aligned_len = len - (len % row_bytes);
            if aligned_len >= row_bytes {
                (0, aligned_len)
            } else {
                (0, len)
            }
        },
    }
}

/// The run's length is a whole, positive number of rows of `row` bytes.
pub open spec fn row_aligned(c: Seq<u8>, row: int) -> bool {
    c.len() >= row && c.len() as int % row == 0
}

/// How many of the runs are row-aligned for rows of `row` bytes.
pub open spec fn count_row_aligned(cs: Seq<Seq<u8>>, row: int) -> int
    decreases cs.len(),
{
    if cs.len() == 0 {
        0
    } else {
        count_row_aligned(cs.drop_last(), row) + if row_aligned(cs.last(), row) {
            1int
        } else {
            0int
        }
    }
}

/// Counts the runs whose length is a whole, positive number of rows.
fn count_aligned(chunks: &[Vec<u8>], row: usize) -> (n: usize)
    requires
        row > 0,
    ensures
        n as int == count_row_aligned(chunks.deep_view(), row as int),
{
    let mut n: usize = 0;
    let mut i: usize = 0;
    while i < chunks.len()
        invariant
            row > 0,
            i <= chunks@.len(),
            n <= i,
            n as int == count_row_aligned(chunks.deep_view().take(i as int), row as int),
        decreases chunks@.len() - i,
    {
        proof {
            let dv = chunks.deep_view();
            assert(dv.take(i + 1).drop_last() =~= dv.take(i as int));
            assert(dv.take(i + 1).last() == dv[i as int]);
            assert(dv[i as int] =~= chunks@[i as int]@);
        }
        let c = &chunks[i];
        if c.len() >= row && c.len() % row == 0 {
            n = n + 1;
        }
        i = i + 1;
    }
    proof {
        assert(chunks.deep_view().take(i as int) =~= chunks.deep_view());
    }
    n
}

/// The recovered dimensions should be swapped: they differ, and more runs
/// line up with rows of the swapped orientation than with rows of the
/// recovered one -- at least half of all runs.
pub open spec fn should_swap_dimensions(cs: Seq<Seq<u8>>, w: usize, h: usize) -> bool {
    &&& w != 0
    &&& h != 0
    &&& w != h
    &&& count_row_aligned(cs, sat_mul(h, 4) as int) > count_row_aligned(cs, sat_mul(w, 4) as int)
    &&& count_row_aligned(cs, sat_mul(h, 4) as int) >= cs.len() as int / 2
}

/// Dimension recovery can yield width and height in the wrong order.  When
/// the decompressed run lengths line up decisively better with rows of the
/// swapped orientation -- strictly more aligned runs, and at least half of
/// them -- the two values are exchanged; otherwise both stay as they are.
pub fn maybe_swap_pdn_dimensions_by_alignment(
    chunks: &[Vec<u8>],
    width: &mut usize,
    height: &mut usize,
)
    ensures
        should_swap_dimensions(chunks.deep_view(), *old(width), *old(height)) ==> *final(width)
            == *old(height) && *final(height) == *old(width),
        !should_swap_dimensions(chunks.deep_view(), *old(width), *old(height)) ==> *final(width)
            == *old(width) && *final(height) == *old(height),
{
    if *width == 0 || *height == 0 || *width == *height {
        return ;
    }
    let row_a = saturating_mul(*width, 4);
    let row_b = saturating_mul(*height, 4);
    let aligned_a = count_aligned(chunks, row_a);
    let aligned_b = count_aligned(chunks, row_b);
    if aligned_b > aligned_a && aligned_b >= chunks.len() / 2 {
        let tmp = *width;
        *width = *height;
        *height = tmp;
    }
}

/// In a run list where every run is row-aligned for the swapped orientation
/// and none is for the recovered one, the swap fires.
pub proof fn lemma_swap_on_uniform_alignment(cs: Seq<Seq<u8>>, w: usize, h: usize)
    requires
        w != 0,
        h != 0,
        w != h,
        cs.len() > 0,
        forall|i: int| 0 <= i < cs.len() ==> row_aligned(#[trigger] cs[i], sat_mul(h, 4) as int),
        forall|i: int| 0 <= i < cs.len() ==> !row_aligned(#[trigger] cs[i], sat_mul(w, 4) as int),
    ensures
        should_swap_dimensions(cs, w, h),
{
    lemma_count_all_aligned(cs, sat_mul(h, 4) as int);
    lemma_count_none_aligned(cs, sat_mul(w, 4) as int);
}

/// A run list whose every member is row-aligned counts them all.
proof fn lemma_count_all_aligned(cs: Seq<Seq<u8>>, row: int)
    requires
        forall|i: int| 0 <= i < cs.len() ==> row_aligned(#[trigger] cs[i], row),
    ensures
        count_row_aligned(cs, row) == cs.len(),
    decreases cs.len(),
{
    if cs.len() > 0 {
        lemma_count_all_aligned(cs.drop_last(), row);
    }
}

/// A run list with no row-aligned member counts zero.
proof fn lemma_count_none_aligned(cs: Seq<Seq<u8>>, row: int)
    requires
        forall|i: int| 0 <= i < cs.len() ==> !row_aligned(#[trigger] cs[i], row),
    ensures
        count_row_aligned(cs, row) == 0,
    decreases cs.len(),
{
    if cs.len() > 0 {
        lemma_count_none_aligned(cs.drop_last(), row);
    }
}

/// The bytes one decompressed run contributes to the pixel stream: its
/// selected payload range when trimming is on, the whole run otherwise.
pub open spec fn chunk_payload_seq(c: Seq<u8>, row: int, trim: bool) -> Seq<u8> {
    if trim {
        let p = select_payload(c, row);
        if p.0 < p.1 <= c.len() {
            c.subrange(p.0, p.1)
        } else {
            Seq::empty()
        }
    } else {
        c
    }
}

/// The pixel stream: the payloads of all runs, concatenated in order.
pub open spec fn payload_stream(cs: Seq<Seq<u8>>, row: int, trim: bool) -> Seq<u8>
    decreases cs.len(),
{
    if cs.len() == 0 {
        Seq::empty()
    } else {
        payload_stream(cs.drop_last(), row, trim) + chunk_payload_seq(cs.last(), row, trim)
    }
}

/// `n` zero bytes.
pub open spec fn zeros(n: int) -> Seq<u8> {
    Seq::new(n as nat, |i: int| 0u8)
}

/// Cutting the pixel stream into layers of exactly `e` bytes: all whole
/// layers in order, plus -- when the remainder holds at least one row (and
/// at least one byte) -- the remainder padded with zero bytes to a full
/// layer.
pub open spec fn split_layers(total: Seq<u8>, e: int, row: int) -> Seq<Seq<u8>>
    recommends
        e > 0,
{
    let n = total.len() as int / e;
    let full = Seq::new(n as nat, |i: int| total.subrange(i * e, (i + 1) * e));
    let rem = total.len() - n * e;
    let keep = if row < 1 {
        1int
    } else {
        row
    };
    if rem >= keep {
        full.push(total.subrange(n * e, total.len() as int) + zeros(e - rem))
    } else {
        full
    }
}

/// The layers assembled from the runs `cs` for an image of `w` by `h`
/// pixels at four bytes per pixel; empty when the image size is zero.
pub open spec fn assembled_layers(cs: Seq<Seq<u8>>, w: usize, h: usize, trim: bool) -> Seq<
    Seq<u8>,
> {
    let e = sat_mul(sat_mul(w, h), 4) as int;
    let row = sat_mul(w, 4) as int;
    if e == 0 {
        Seq::empty()
    } else {
        split_layers(payload_stream(cs, row, trim), e, row)
    }
}

/// The layers cut so far, together with the bytes still accumulating, carve
/// up the stream `s` exactly.
spec fn partial_assembly(s: Seq<u8>, e: int, ldv: Seq<Seq<u8>>, cur: Seq<u8>) -> bool {
    let k = ldv.len() as int;
    &&& forall|i: int| 0 <= i < k ==> ldv[i] == s.subrange(i * e, (i + 1) * e)
    &&& k * e + cur.len() == s.len()
    &&& cur == s.subrange(k * e, s.len() as int)
}

/// Appends `src[from..to]` to `dst`.
fn append_range(dst: &mut Vec<u8>, src: &Vec<u8>, from: usize, to: usize)
    requires
        from <= to <= src@.len(),
    ensures
        final(dst)@ == old(dst)@ + src@.subrange(from as int, to as int),
{
    let mut j = from;
    while j < to
        invariant
            from <= j <= to,
            to <= src@.len(),
            dst@ == old(dst)@ + src@.subrange(from as int, j as int),
        decreases to - j,
    {
        let b = src[j];
        dst.push(b);
        proof {
            assert(src@.subrange(from as int, j + 1) =~= src@.subrange(from as int, j as int).push(
                src@[j as int],
            ));
            assert(dst@ =~= old(dst)@ + src@.subrange(from as int, j + 1));
        }
        j = j + 1;
    }
    proof {
        assert(dst@ =~= old(dst)@ + src@.subrange(from as int, to as int));
    }
}

/// Concatenates the payloads of the decompressed runs, in the order the
/// runs were found, and cuts the result into layers of exactly
/// `width * height * 4` bytes.  With `trim_chunk_headers` each run first
/// loses the framing bytes its best trim discards.  A trailing remainder of
/// at least one row is zero-padded into a final partial layer.  Zero image
/// size yields no layers.
pub fn assemble_pdn_layers(
    chunks: &[Vec<u8>],
    width: usize,
    height: usize,
    trim_chunk_headers: bool,
) -> (layers: Vec<Vec<u8>>)
    ensures
        layers.deep_view() == assembled_layers(
            chunks.deep_view(),
            width,
            height,
            trim_chunk_headers,
        ),
{
    let expected_size = saturating_mul(saturating_mul(width, height), 4);
    let row_bytes = saturating_mul(width, 4);
    let mut layers: Vec<Vec<u8>> = Vec::new();
    if expected_size == 0 {
        proof {
            assert(layers.deep_view() =~= Seq::<Seq<u8>>::empty());
        }
        return layers;
    }
    let ghost dv = chunks.deep_view();
    let ghost row = row_bytes as int;
    let ghost e = expected_size as int;
    let mut current: Vec<u8> = Vec::new();
    let mut ci: usize = 0;
    proof {
        assert(dv.take(0) =~= Seq::<Seq<u8>>::empty());
        assert(payload_stream(dv.take(0), row, trim_chunk_headers) == Seq::<u8>::empty());
        assert(layers.deep_view() =~= Seq::<Seq<u8>>::empty());
        assert(current@ =~= Seq::<u8>::empty().subrange(0, 0));
    }
    while ci < chunks.len()
        invariant
            expected_size == sat_mul(sat_mul(width, height), 4),
            expected_size > 0,
            row_bytes == sat_mul(width, 4),
            dv == chunks.deep_view(),
            row == row_bytes as int,
            e == expected_size as int,
            ci <= chunks@.len(),
            partial_assembly(
                payload_stream(dv.take(ci as int), row, trim_chunk_headers),
                e,
                layers.deep_view(),
                current@,
            ),
            current@.len() < expected_size,
        decreases chunks@.len() - ci,
    {
        let ghost s_old = payload_stream(dv.take(ci as int), row, trim_chunk_headers);
        let chunk = &chunks[ci];
        proof {
            assert(dv[ci as int] =~= chunk@);
            assert(dv.take(ci + 1).drop_last() =~= dv.take(ci as int));
            assert(dv.take(ci + 1).last() == dv[ci as int]);
        }
        let ghost s_new = payload_stream(dv.take(ci + 1), row, trim_chunk_headers);
        proof {
            assert(s_new == s_old + chunk_payload_seq(chunk@, row, trim_chunk_headers));
        }
        let p = if trim_chunk_headers {
            select_pdn_chunk_payload(chunk.as_slice(), row_bytes)
        } else {
            (0usize, chunk.len())
        };
        if p.1 > p.0 && p.1 <= chunk.len() {
            append_range(&mut current, chunk, p.0, p.1);
        }
        proof {
            let pay = chunk_payload_seq(chunk@, row, trim_chunk_headers);
            if trim_chunk_headers {
                if p.0 < p.1 {
                    assert(pay == chunk@.subrange(p.0 as int, p.1 as int));
                } else {
                    assert(pay == Seq::<u8>::empty());
                }
            } else {
                assert(pay == chunk@);
                if chunk@.len() > 0 {
                    assert(chunk@.subrange(0, chunk@.len() as int) =~= chunk@);
                }
            }
            if !(p.1 > p.0 && p.1 <= chunk@.len()) {
                assert(pay =~= Seq::<u8>::empty());
                assert(current@ =~= current@ + pay);
            }
            let k = layers.deep_view().len() as int;
            assert(k * e >= 0) by (nonlinear_arith)
                requires
                    k >= 0,
                    e > 0,
            ;
            lemma_partial_assembly_extend(s_old, pay, e, layers.deep_view());
        }
        while current.len() >= expected_size
            invariant
                expected_size > 0,
                e == expected_size as int,
                partial_assembly(s_new, e, layers.deep_view(), current@),
            decreases current@.len(),
        {
            let ghost k = layers.deep_view().len() as int;
            let ghost prev_ldv = layers.deep_view();
            let rest = current.split_off(expected_size);
            let ghost cut = current@;
            proof {
                assert(k * e >= 0 && k * e + e <= s_new.len()) by (nonlinear_arith)
                    requires
                        k >= 0,
                        e > 0,
                        k * e + cut.len() + rest@.len() == s_new.len(),
                        cut.len() == e,
                ;
                assert(cut =~= s_new.subrange(k * e, k * e + e));
                assert(rest@ =~= s_new.subrange((k + 1) * e, s_new.len() as int)) by {
                    vstd::arithmetic::mul::lemma_mul_is_distributive_add_other_way(e, k, 1);
                }
            }
            layers.push(current);
            current = rest;
            proof {
                assert(layers.deep_view().drop_last() =~= prev_ldv);
                assert(layers.deep_view().last() == cut);
                assert((k + 1) * e == k * e + e) by (nonlinear_arith);
                lemma_partial_assembly_cut(s_new, e, layers.deep_view(), current@);
            }
        }
        ci = ci + 1;
    }
    proof {
        assert(dv.take(ci as int) =~= dv);
    }
    let keep_min = if row_bytes < 1 {
        1
    } else {
        row_bytes
    };
    let ghost s = payload_stream(dv, row, trim_chunk_headers);
    let ghost k = layers.deep_view().len() as int;
    proof {
        vstd::arithmetic::div_mod::lemma_fundamental_div_mod_converse(
            s.len() as int,
            e,
            k,
            current@.len() as int,
        );
    }
    if current.len() >= keep_min {
        let ghost rem = current@;
        while current.len() < expected_size
            invariant
                current@.len() <= expected_size,
                rem.len() <= current@.len(),
                current@ == rem + zeros(current@.len() - rem.len()),
            decreases expected_size - current@.len(),
        {
            current.push(0);
            proof {
                assert(current@ =~= rem + zeros(current@.len() - rem.len()));
            }
        }
        let ghost prev_ldv = layers.deep_view();
        let ghost padded = current@;
        layers.push(current);
        proof {
            assert(layers.deep_view().drop_last() =~= prev_ldv);
            assert(layers.deep_view().last() == padded);
            assert(padded == rem + zeros(e - rem.len()));
            let n = s.len() as int / e;
            assert(n == k);
            let full = Seq::new(n as nat, |i: int| s.subrange(i * e, (i + 1) * e));
            assert(rem == s.subrange(k * e, s.len() as int));
            assert(rem.len() == s.len() - n * e);
            assert(split_layers(s, e, row) == full.push(
                s.subrange(n * e, s.len() as int) + zeros(e - (s.len() - n * e)),
            ));
            assert forall|i: int| 0 <= i < k implies layers.deep_view()[i] == full[i] by {
                assert(layers.deep_view().drop_last()[i] == layers.deep_view()[i]);
                assert(prev_ldv[i] == s.subrange(i * e, (i + 1) * e));
            }
            assert(layers.deep_view() =~~= split_layers(s, e, row));
        }
    } else {
        proof {
            let n = s.len() as int / e;
            assert(n == k);
            assert(s.len() - n * e < (if row < 1 {
                1int
            } else {
                row
            }));
            assert(layers.deep_view() =~~= split_layers(s, e, row));
        }
    }
    layers
}

/// Appending bytes to the accumulator keeps the carve-up of the extended
/// stream.
proof fn lemma_partial_assembly_extend(s: Seq<u8>, p: Seq<u8>, e: int, ldv: Seq<Seq<u8>>)
    requires
        e > 0,
        0 <= ldv.len() as int * e <= s.len(),
        partial_assembly(s, e, ldv, s.subrange(ldv.len() as int * e, s.len() as int)),
    ensures
        partial_assembly(
            s + p,
            e,
            ldv,
            (s + p).subrange(ldv.len() as int * e, (s + p).len() as int),
        ),
        (s + p).subrange(ldv.len() as int * e, (s + p).len() as int) == s.subrange(
            ldv.len() as int * e,
            s.len() as int,
        ) + p,
{
    let k = ldv.len() as int;
    assert(0 <= k * e <= s.len()) by {
        if k > 0 {
            assert(k * e >= 0) by (nonlinear_arith)
                requires
                    k >= 0,
                    e > 0,
            ;
        }
    }
    assert forall|i: int| 0 <= i < k implies ldv[i] == (s + p).subrange(i * e, (i + 1) * e) by {
        assert((i + 1) * e <= k * e && i * e >= 0 && (i + 1) * e == i * e + e) by (nonlinear_arith)
            requires
                0 <= i,
                i + 1 <= k,
                e > 0,
        ;
        assert((s + p).subrange(i * e, (i + 1) * e) =~= s.subrange(i * e, (i + 1) * e));
    }
    assert((s + p).subrange(k * e, (s + p).len() as int) =~= s.subrange(k * e, s.len() as int)
        + p);
}

/// Cutting one full layer off the front of the accumulator keeps the
/// carve-up.
proof fn lemma_partial_assembly_cut(s: Seq<u8>, e: int, ldv: Seq<Seq<u8>>, cur: Seq<u8>)
    requires
        e > 0,
        ldv.len() >= 1,
        partial_assembly(s, e, ldv.drop_last(), s.subrange((ldv.len() - 1) as int * e, s.len() as int)),
        ldv.last() == s.subrange((ldv.len() - 1) as int * e, (ldv.len() - 1) as int * e + e),
        cur == s.subrange(ldv.len() as int * e, s.len() as int),
        (ldv.len() - 1) as int * e + e <= s.len(),
    ensures
        partial_assembly(s, e, ldv, cur),
{
    let k = ldv.len() as int;
    assert(k * e == (k - 1) * e + e) by (nonlinear_arith);
    assert forall|i: int| 0 <= i < k implies ldv[i] == s.subrange(i * e, (i + 1) * e) by {
        if i < k - 1 {
            assert(ldv.drop_last()[i] == ldv[i]);
        } else {
            assert(i * e == (k - 1) * e);
            assert((i + 1) * e == (k - 1) * e + e) by (nonlinear_arith)
                requires
                    i == k - 1,
            ;
        }
    }
}

} // verus!

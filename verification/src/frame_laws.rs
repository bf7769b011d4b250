//! Properties of frame reassembly and of the thermal normalisation that hold
//! across calls and over all inputs.
use vstd::prelude::*;
use crate::frame::{
    appended, declared_total, gray_level, has_magic, is_ffc, lemma_min_max_bounds, outcome, raw_image,
    seq_max, seq_min, step, thermal_gray, BUF_SIZE, HEADER_LEN, THERMAL_PIXELS,
};

verus! {

// ── Normalisation ───────────────────────────────────────────────────────────

/// Normalisation preserves order: a pixel that is at most as warm as another
/// is at most as bright.
pub proof fn law_normalisation_monotone(frame: Seq<u8>, i: int, j: int)
    requires
        0 <= i < THERMAL_PIXELS,
        0 <= j < THERMAL_PIXELS,
        raw_image(frame)[i] <= raw_image(frame)[j],
    ensures
        thermal_gray(frame)[i] <= thermal_gray(frame)[j],
{
    let raw = raw_image(frame);
    let lo = seq_min(raw);
    let hi = seq_max(raw);
    lemma_min_max_bounds(raw, i);
    lemma_min_max_bounds(raw, j);
    if hi > lo {
        let d: int = hi - lo;
        let a: int = raw[i] - lo;
        let b: int = raw[j] - lo;
        assert(a * 256 / d <= b * 256 / d) by (nonlinear_arith)
            requires
                0 <= a <= b,
                0 < d,
        ;
        assert(0 <= a * 256 / d) by (nonlinear_arith)
            requires
                0 <= a,
                0 < d,
        ;
    }
}

/// The coldest pixels of a frame are black.
pub proof fn law_coldest_is_black(frame: Seq<u8>, i: int)
    requires
        0 <= i < THERMAL_PIXELS,
        raw_image(frame)[i] == seq_min(raw_image(frame)),
    ensures
        thermal_gray(frame)[i] == 0,
{
}

/// In a frame that is not uniform, the warmest pixels are white (255): the
/// normalisation stretches the image's range over the whole 8-bit scale.
pub proof fn law_warmest_is_white(frame: Seq<u8>, i: int)
    requires
        0 <= i < THERMAL_PIXELS,
        raw_image(frame)[i] == seq_max(raw_image(frame)),
        seq_min(raw_image(frame)) < seq_max(raw_image(frame)),
    ensures
        thermal_gray(frame)[i] == 255,
{
    let raw = raw_image(frame);
    let d: int = seq_max(raw) - seq_min(raw);
    assert(d * 256 / d == 256) by (nonlinear_arith)
        requires
            d > 0,
    ;
}

/// Where the range `d = hi - lo` divides 65536, the grey level is the 16.16
/// fixed-point scaling `((v - lo) * (65536 / d)) >> 8`, saturated at 255.
pub proof fn law_normalisation_fixed_point(v: u16, lo: u16, hi: u16)
    requires
        lo <= v <= hi,
        lo < hi,
        65536int % ((hi - lo) as int) == 0,
    ensures
        gray_level(v, lo, hi) == ({
            let g = ((v - lo) * (65536int / ((hi - lo) as int))) / 256;
            if g > 255 {
                255
            } else {
                g
            }
        }),
{
    let d: int = hi - lo;
    let a: int = v - lo;
    let q: int = 65536int / d;
    assert(d * q == 65536) by (nonlinear_arith)
        requires
            d > 0,
            65536int % d == 0,
            q == 65536int / d,
    ;
    assert(a * 256 / d == a * q / 256) by (nonlinear_arith)
        requires
            d > 0,
            d * q == 65536,
            a >= 0,
    ;
}

// ── Reassembly ──────────────────────────────────────────────────────────────

/// A chunk that opens with the magic bytes starts a new frame: what the
/// accumulator held before makes no difference.
pub proof fn law_magic_chunk_starts_afresh(d1: Seq<u8>, d2: Seq<u8>, skip: bool, chunk: Seq<u8>)
    requires
        has_magic(chunk),
        chunk.len() < BUF_SIZE,
    ensures
        step(d1, skip, chunk) == step(d2, skip, chunk),
{
}

/// A handed-out or dropped frame is consumed: the accumulator is left empty.
pub proof fn law_complete_frame_is_consumed(data: Seq<u8>, skip: bool, chunk: Seq<u8>)
    requires
        outcome(data, skip, chunk) is Complete || outcome(data, skip, chunk) is FlatFieldEvent
            || outcome(data, skip, chunk) is SkippedAfterFfc,
    ensures
        step(data, skip, chunk).0 == Seq::<u8>::empty(),
{
}

/// `chunk` completes a frame that is not a flat-field-correction frame.
pub open spec fn completes_plain_frame(data: Seq<u8>, chunk: Seq<u8>) -> bool {
    let acc = appended(data, chunk);
    &&& 0 < chunk.len() < BUF_SIZE
    &&& has_magic(acc)
    &&& acc.len() >= HEADER_LEN
    &&& acc.len() >= declared_total(acc)
    &&& !is_ffc(acc)
}

/// After a flat-field-correction frame, the next complete frame is dropped and
/// the one after it is handed out again.
pub proof fn law_ffc_drops_one_frame(
    data: Seq<u8>,
    skip: bool,
    c1: Seq<u8>,
    c2: Seq<u8>,
    c3: Seq<u8>,
)
    requires
        outcome(data, skip, c1) is FlatFieldEvent,
        completes_plain_frame(step(data, skip, c1).0, c2),
        completes_plain_frame(step(step(data, skip, c1).0, step(data, skip, c1).1, c2).0, c3),
    ensures
        step(data, skip, c1).2 is None,
        step(step(data, skip, c1).0, step(data, skip, c1).1, c2).2 is None,
        step(step(data, skip, c1).0, step(data, skip, c1).1, c2).1 == false,
        ({
            let s2 = step(step(data, skip, c1).0, step(data, skip, c1).1, c2);
            step(s2.0, s2.1, c3).2 is Some
        }),
{
}

/// The FFC marker is read in the status block, which follows the header, the
/// thermal block and the JPEG block: a complete frame whose bytes at
/// `28 + ThermalSize + JpgSize + 17` read `FFC` (and lie inside the frame)
/// hands out no image, is consumed, and makes the next complete frame be
/// dropped.
pub proof fn law_ffc_marker_after_jpeg_block(data: Seq<u8>, skip: bool, chunk: Seq<u8>)
    requires
        0 < chunk.len() < BUF_SIZE,
        ({
            let acc = appended(data, chunk);
            let frame_size = acc[8] + 256 * acc[9] + 65536 * acc[10] + 16777216 * acc[11];
            let thermal_size = acc[12] + 256 * acc[13] + 65536 * acc[14] + 16777216 * acc[15];
            let jpg_size = acc[16] + 256 * acc[17] + 65536 * acc[18] + 16777216 * acc[19];
            let total = frame_size + 28;
            let o = 28 + thermal_size + jpg_size + 17;
            &&& acc.len() >= 28
            &&& acc[0] == 0xEFu8 && acc[1] == 0xBEu8 && acc[2] == 0u8 && acc[3] == 0u8
            &&& acc.len() >= total
            &&& o + 3 <= total
            &&& acc[o] == 0x46u8 && acc[o + 1] == 0x46u8 && acc[o + 2] == 0x43u8
        }),
    ensures
        step(data, skip, chunk).2 is None,
        step(data, skip, chunk).1,
        step(data, skip, chunk).0 == Seq::<u8>::empty(),
{
}

/// A complete frame without the FFC marker in its status block (at
/// `28 + ThermalSize + JpgSize + 17`), that does not follow an FFC frame, is
/// handed out: its first `FrameSize + 28` bytes.
pub proof fn law_plain_frame_handed_out(data: Seq<u8>, chunk: Seq<u8>)
    requires
        0 < chunk.len() < BUF_SIZE,
        ({
            let acc = appended(data, chunk);
            let frame_size = acc[8] + 256 * acc[9] + 65536 * acc[10] + 16777216 * acc[11];
            let thermal_size = acc[12] + 256 * acc[13] + 65536 * acc[14] + 16777216 * acc[15];
            let jpg_size = acc[16] + 256 * acc[17] + 65536 * acc[18] + 16777216 * acc[19];
            let total = frame_size + 28;
            let o = 28 + thermal_size + jpg_size + 17;
            &&& acc.len() >= 28
            &&& acc[0] == 0xEFu8 && acc[1] == 0xBEu8 && acc[2] == 0u8 && acc[3] == 0u8
            &&& acc.len() >= total
            &&& !(o + 3 <= total && acc[o] == 0x46u8 && acc[o + 1] == 0x46u8 && acc[o + 2] == 0x43u8)
        }),
    ensures
        step(data, false, chunk).2 == Some(
            appended(data, chunk).take(
                appended(data, chunk)[8] + 256 * appended(data, chunk)[9] + 65536 * appended(data, chunk)[10]
                    + 16777216 * appended(data, chunk)[11] + 28,
            ),
        ),
        step(data, false, chunk).0 == Seq::<u8>::empty(),
        !step(data, false, chunk).1,
{
}

/// The concatenation of a sequence of chunks.
pub open spec fn concat(chunks: Seq<Seq<u8>>) -> Seq<u8>
    decreases chunks.len(),
{
    if chunks.len() == 0 {
        Seq::empty()
    } else {
        concat(chunks.drop_last()) + chunks.last()
    }
}

/// The accumulator state (data, skip) after feeding `chunks` one by one.
pub open spec fn feed(data: Seq<u8>, skip: bool, chunks: Seq<Seq<u8>>) -> (Seq<u8>, bool)
    decreases chunks.len(),
{
    if chunks.len() == 0 {
        (data, skip)
    } else {
        let s = feed(data, skip, chunks.drop_last());
        let r = step(s.0, s.1, chunks.last());
        (r.0, r.1)
    }
}

/// The frames handed out while feeding `chunks` one by one, in order.
pub open spec fn feed_frames(data: Seq<u8>, skip: bool, chunks: Seq<Seq<u8>>) -> Seq<Seq<u8>>
    decreases chunks.len(),
{
    if chunks.len() == 0 {
        Seq::empty()
    } else {
        let s = feed(data, skip, chunks.drop_last());
        let earlier = feed_frames(data, skip, chunks.drop_last());
        match step(s.0, s.1, chunks.last()).2 {
            Some(f) => earlier.push(f),
            None => earlier,
        }
    }
}

/// Chunks that carry one frame: the first opens with the magic bytes, no
/// later one does, none is empty, they fit in the buffer together, and no
/// proper prefix of them is a complete frame.
pub open spec fn split_frame(chunks: Seq<Seq<u8>>) -> bool {
    &&& chunks.len() >= 1
    &&& has_magic(chunks[0])
    &&& forall|i: int| 0 < i < chunks.len() ==> !has_magic(#[trigger] chunks[i])
    &&& forall|i: int| 0 <= i < chunks.len() ==> (#[trigger] chunks[i]).len() > 0
    &&& concat(chunks).len() < BUF_SIZE
    &&& forall|k: int|
        0 < k < chunks.len() ==> {
            let p = #[trigger] concat(chunks.take(k));
            p.len() < HEADER_LEN || p.len() < declared_total(p)
        }
}

proof fn lemma_concat_prefix(chunks: Seq<Seq<u8>>, k: int)
    requires
        1 <= k <= chunks.len(),
    ensures
        concat(chunks.take(k)).len() <= concat(chunks).len(),
        concat(chunks.take(k)).len() >= chunks[0].len(),
        forall|j: int|
            0 <= j < chunks[0].len() ==> #[trigger] concat(chunks.take(k))[j] == chunks[0][j],
        concat(chunks.take(k)) == concat(chunks.take(k - 1)) + chunks[k - 1],
    decreases chunks.len(),
{
    assert(chunks.take(k).drop_last() =~= chunks.take(k - 1));
    if k == chunks.len() {
        assert(chunks.take(k) =~= chunks);
        if k > 1 {
            lemma_concat_prefix(chunks.drop_last(), k - 1);
            assert(chunks.drop_last().take(k - 1) =~= chunks.take(k - 1));
        } else {
            assert(chunks.take(0) =~= Seq::<Seq<u8>>::empty());
            assert(concat(chunks.take(1)) =~= chunks[0]);
        }
    } else {
        lemma_concat_prefix(chunks.drop_last(), k);
        assert(chunks.drop_last().take(k) =~= chunks.take(k));
        assert(chunks.drop_last().take(k - 1) =~= chunks.take(k - 1));
    }
}

proof fn lemma_feed_prefix(data: Seq<u8>, skip: bool, chunks: Seq<Seq<u8>>, k: int)
    requires
        split_frame(chunks),
        1 <= k < chunks.len(),
    ensures
        feed(data, skip, chunks.take(k)) == (concat(chunks.take(k)), skip),
        feed_frames(data, skip, chunks.take(k)) == Seq::<Seq<u8>>::empty(),
    decreases k,
{
    lemma_concat_prefix(chunks, k);
    let p = concat(chunks.take(k));
    assert(chunks.take(k).drop_last() =~= chunks.take(k - 1));
    assert(chunks.take(k).last() == chunks[k - 1]);
    assert(has_magic(p));
    assert(p.len() < HEADER_LEN || p.len() < declared_total(p));
    assert(chunks[k - 1].len() > 0);
    if k == 1 {
        assert(chunks.take(0) =~= Seq::<Seq<u8>>::empty());
        assert(concat(chunks.take(0)) =~= Seq::<u8>::empty());
        assert(feed(data, skip, chunks.take(0)) == (data, skip));
        assert(feed_frames(data, skip, chunks.take(0)) == Seq::<Seq<u8>>::empty());
        assert(appended(data, chunks[0]) == chunks[0]);
        assert(p =~= chunks[0]);
        assert(outcome(data, skip, chunks[0]) is Pending);
    } else {
        lemma_feed_prefix(data, skip, chunks, k - 1);
        lemma_concat_prefix(chunks, k - 1);
        let q = concat(chunks.take(k - 1));
        assert(!has_magic(chunks[k - 1]));
        assert(appended(q, chunks[k - 1]) == p);
        assert(outcome(q, skip, chunks[k - 1]) is Pending);
    }
}

/// A frame split over several chunks is reassembled exactly as if it had come
/// in one chunk: nothing is handed out before the last chunk, and the last
/// chunk has the same effect as the whole frame fed at once.
pub proof fn law_split_frame_reassembles(data: Seq<u8>, skip: bool, chunks: Seq<Seq<u8>>)
    requires
        split_frame(chunks),
    ensures
        feed(data, skip, chunks) == ({
            let r = step(data, skip, concat(chunks));
            (r.0, r.1)
        }),
        feed_frames(data, skip, chunks) == match step(data, skip, concat(chunks)).2 {
            Some(f) => seq![f],
            None => Seq::<Seq<u8>>::empty(),
        },
{
    let n = chunks.len() as int;
    lemma_concat_prefix(chunks, n);
    assert(chunks.take(n) =~= chunks);
    assert(chunks.drop_last() =~= chunks.take(n - 1));
    let whole = concat(chunks);
    assert(has_magic(whole));
    if n == 1 {
        assert(chunks.take(0) =~= Seq::<Seq<u8>>::empty());
        assert(concat(chunks.take(0)) =~= Seq::<u8>::empty());
        assert(feed(data, skip, chunks.drop_last()) == (data, skip));
        assert(feed_frames(data, skip, chunks.drop_last()) == Seq::<Seq<u8>>::empty());
        assert(whole =~= chunks[0]);
        assert(appended(data, chunks[0]) == chunks[0]);
        assert(step(data, skip, chunks.last()) == step(data, skip, whole));
    } else {
        lemma_feed_prefix(data, skip, chunks, n - 1);
        lemma_concat_prefix(chunks, n - 1);
        assert(!has_magic(chunks[n - 1]));
        assert(appended(concat(chunks.take(n - 1)), chunks[n - 1]) == whole);
        assert(appended(data, whole) == whole);
        let q = concat(chunks.take(n - 1));
        assert(step(q, skip, chunks.last()) == step(data, skip, whole));
    }
    match step(data, skip, concat(chunks)).2 {
        Some(f) => {
            assert(Seq::<Seq<u8>>::empty().push(f) =~= seq![f]);
        },
        None => {},
    }
}

} // verus!

//! Frame reassembly and thermal-data extraction for the FLIR One (Lepton 3 sensor).
//!
//! The camera streams USB bulk chunks. A complete frame is a 28-byte header
//! (magic `EF BE 00 00`, then little-endian `u32` fields at offsets 8, 12 and
//! 16: the payload size, the thermal block size and the JPEG block size),
//! followed by the thermal block, the JPEG block and a status block. A status
//! block that reads `FFC` 17 bytes in marks a flat-field-correction shutter
//! event: that frame and the next complete one are dropped.
//!
//! Thermal pixel `(x, y)` (160 x 120, row stride 164) is the little-endian
//! `u16` at `32 + 2 * (164 * y + x)` for `x < 80` and at `36 + 2 * (164 * y + x)`
//! otherwise.
use vstd::prelude::*;

verus! {

/// Width of the thermal image in pixels.
pub const THERMAL_W: usize = 160;

/// Height of the thermal image in pixels.
pub const THERMAL_H: usize = 120;

/// Number of pixels of the thermal image.
pub const THERMAL_PIXELS: usize = 19200;

/// Row stride of the thermal block, in pixels.
pub const THERMAL_STRIDE: usize = 164;

/// Capacity of the reassembly buffer (1 MiB).
pub const BUF_SIZE: usize = 1048576;

/// Length of the frame header.
pub const HEADER_LEN: usize = 28;

/// A complete frame must hold at least this many bytes for every thermal
/// pixel to lie inside it (the last pixel's high byte is at 39387).
pub const FRAME_MIN_LEN: usize = 39388;

// ── Byte-level model of a frame ─────────────────────────────────────────────

/// The four magic bytes `EF BE 00 00` open `s`.
pub open spec fn has_magic(s: Seq<u8>) -> bool {
    &&& s.len() >= 4
    &&& s[0] == 0xEFu8
    &&& s[1] == 0xBEu8
    &&& s[2] == 0u8
    &&& s[3] == 0u8
}

/// The little-endian `u32` stored in `s` at `off`.
pub open spec fn le_u32(s: Seq<u8>, off: int) -> int {
    s[off] + 256 * s[off + 1] + 65536 * s[off + 2] + 16777216 * s[off + 3]
}

/// The little-endian `u16` stored in `s` at `off`.
pub open spec fn le_u16(s: Seq<u8>, off: int) -> int {
    s[off] + 256 * s[off + 1]
}

/// Total length of the frame that the header of `s` declares.
pub open spec fn declared_total(s: Seq<u8>) -> int {
    le_u32(s, 8) + HEADER_LEN
}

/// Where the `FFC` marker of the status block would stand.
pub open spec fn ffc_offset(s: Seq<u8>) -> int {
    HEADER_LEN + le_u32(s, 12) + le_u32(s, 16) + 17
}

/// The frame whose header opens `s` is a flat-field-correction frame.
pub open spec fn is_ffc(s: Seq<u8>) -> bool {
    let o = ffc_offset(s);
    &&& o + 3 <= declared_total(s)
    &&& s[o] == 0x46u8
    &&& s[o + 1] == 0x46u8
    &&& s[o + 2] == 0x43u8
}

/// Accumulated data after `chunk` is taken in: a chunk that opens with the
/// magic bytes, or that would not fit, starts afresh.
pub open spec fn appended(data: Seq<u8>, chunk: Seq<u8>) -> Seq<u8> {
    if has_magic(chunk) || data.len() + chunk.len() >= BUF_SIZE {
        chunk
    } else {
        data + chunk
    }
}

/// How an accumulator holding `data` (with `skip` set when the next complete
/// frame is to be dropped) treats `chunk`.
pub enum ChunkOutcome {
    /// The chunk is empty or at least a whole buffer long: nothing happens.
    Ignored,
    /// The accumulated data does not open with the magic bytes: it is dropped.
    Discarded,
    /// The accumulated data is kept: the frame is not complete yet.
    Pending,
    /// The completed frame is a flat-field-correction frame: it is dropped and
    /// so will be the next complete frame.
    FlatFieldEvent,
    /// The completed frame follows a flat-field-correction frame: it is dropped.
    SkippedAfterFfc,
    /// A frame of this many bytes is complete and handed out.
    Complete(usize),
}

/// The outcome of feeding `chunk` (see [`ChunkOutcome`]).
pub open spec fn outcome(data: Seq<u8>, skip: bool, chunk: Seq<u8>) -> ChunkOutcome {
    if chunk.len() == 0 || chunk.len() >= BUF_SIZE {
        ChunkOutcome::Ignored
    } else {
        let acc = appended(data, chunk);
        if !has_magic(acc) {
            ChunkOutcome::Discarded
        } else if acc.len() < HEADER_LEN || acc.len() < declared_total(acc) {
            ChunkOutcome::Pending
        } else if is_ffc(acc) {
            ChunkOutcome::FlatFieldEvent
        } else if skip {
            ChunkOutcome::SkippedAfterFfc
        } else {
            ChunkOutcome::Complete(declared_total(acc) as usize)
        }
    }
}

/// What feeding `chunk` does to an accumulator holding `data`, with `skip`
/// set when the next complete frame is to be dropped: the new data, the new
/// `skip`, and the bytes of the frame that is completed and handed out.
pub open spec fn step(data: Seq<u8>, skip: bool, chunk: Seq<u8>) -> (Seq<u8>, bool, Option<Seq<u8>>) {
    let acc = appended(data, chunk);
    match outcome(data, skip, chunk) {
        ChunkOutcome::Ignored => (data, skip, None),
        ChunkOutcome::Discarded => (Seq::empty(), skip, None),
        ChunkOutcome::Pending => (acc, skip, None),
        ChunkOutcome::FlatFieldEvent => (Seq::empty(), true, None),
        ChunkOutcome::SkippedAfterFfc => (Seq::empty(), false, None),
        ChunkOutcome::Complete(total) => (Seq::empty(), false, Some(acc.take(total as int))),
    }
}

/// Feeding `chunk` would complete a frame too short to hold the thermal image.
pub open spec fn step_yields_short_frame(data: Seq<u8>, skip: bool, chunk: Seq<u8>) -> bool {
    match step(data, skip, chunk).2 {
        Some(f) => f.len() < FRAME_MIN_LEN,
        None => false,
    }
}

/// Data that an accumulator can hold between two chunks: empty, or the
/// beginning of a frame (magic first) that is not complete yet.
pub open spec fn pending_frame(data: Seq<u8>) -> bool {
    &&& data.len() < BUF_SIZE
    &&& data.len() == 0 || (has_magic(data) && (data.len() >= HEADER_LEN ==> data.len()
        < declared_total(data)))
}

// ── Thermal extraction model ────────────────────────────────────────────────

/// Byte offset of thermal pixel `(x, y)`; the two-pixel gap in each row half
/// is skipped by the extra 4 bytes for `x >= 80`.
pub open spec fn pixel_offset(x: int, y: int) -> int {
    if x < 80 {
        32 + 2 * (THERMAL_STRIDE * y + x)
    } else {
        36 + 2 * (THERMAL_STRIDE * y + x)
    }
}

/// Raw sensor value of pixel `i` (row-major, `i = 160 * y + x`).
pub open spec fn raw_at(frame: Seq<u8>, i: int) -> u16 {
    le_u16(frame, pixel_offset(i % 160, i / 160)) as u16
}

/// The raw 160 x 120 image, row-major.
pub open spec fn raw_image(frame: Seq<u8>) -> Seq<u16> {
    Seq::new(THERMAL_PIXELS as nat, |i: int| raw_at(frame, i))
}

/// Smallest value of `s`, `u16::MAX` for an empty sequence.
pub open spec fn seq_min(s: Seq<u16>) -> u16
    decreases s.len(),
{
    if s.len() == 0 {
        u16::MAX
    } else {
        let m = seq_min(s.drop_last());
        if s.last() < m {
            s.last()
        } else {
            m
        }
    }
}

/// Largest value of `s`, `0` for an empty sequence.
pub open spec fn seq_max(s: Seq<u16>) -> u16
    decreases s.len(),
{
    if s.len() == 0 {
        0
    } else {
        let m = seq_max(s.drop_last());
        if s.last() > m {
            s.last()
        } else {
            m
        }
    }
}

/// Grey level of raw value `v` in an image whose range is `lo..=hi`:
/// `(v - lo) * 256 / (hi - lo)`, saturated at 255, so `lo` maps to 0 and `hi`
/// to 255; a uniform image is black.
pub open spec fn gray_level(v: u16, lo: u16, hi: u16) -> u8 {
    if hi > lo {
        let g = (v - lo) * 256 / (hi - lo);
        if g > 255 {
            255u8
        } else {
            g as u8
        }
    } else {
        0u8
    }
}

/// The min-max normalised grey image of a frame.
pub open spec fn thermal_gray(frame: Seq<u8>) -> Seq<u8> {
    let raw = raw_image(frame);
    raw.map_values(|v: u16| gray_level(v, seq_min(raw), seq_max(raw)))
}

/// Raw value of the centre pixel `(80, 60)`.
pub open spec fn thermal_center(frame: Seq<u8>) -> u16 {
    raw_at(frame, 9680int)
}

// ── Lemmas ──────────────────────────────────────────────────────────────────

/// `seq_min` is at most every element and `seq_max` at least every element.
pub proof fn lemma_min_max_bounds(s: Seq<u16>, j: int)
    requires
        0 <= j < s.len(),
    ensures
        seq_min(s) <= s[j] <= seq_max(s),
    decreases s.len(),
{
    if j < s.len() - 1 {
        lemma_min_max_bounds(s.drop_last(), j);
    }
}

// ── Thermal extraction ──────────────────────────────────────────────────────

/// A min-max normalised thermal image.
pub struct ThermalFrame {
    /// Min-max normalised grayscale, indexed `[y * THERMAL_W + x]`.
    pub gray: [u8; 19200],
    /// Raw sensor value of the centre pixel (hundredths of a kelvin).
    pub center_raw: u16,
}

/// The little-endian `u32` at `off` in `buf`.
pub fn u32_le(buf: &[u8], off: usize) -> (v: u32)
    requires
        off + 4 <= buf@.len(),
    ensures
        v == le_u32(buf@, off as int),
{
    buf[off] as u32 + 256 * (buf[off + 1] as u32) + 65536 * (buf[off + 2] as u32) + 16777216 * (
    buf[off + 3] as u32)
}

/// Extracts the 160 x 120 thermal image of a complete frame and min-max
/// normalises it to 8 bits.
pub fn extract_thermal(frame: &[u8]) -> (t: ThermalFrame)
    requires
        frame@.len() >= FRAME_MIN_LEN,
    ensures
        t.gray@ == thermal_gray(frame@),
        t.center_raw == thermal_center(frame@),
{
    let ghost img = raw_image(frame@);
    let mut raw = [0u16; 19200];
    let mut min: u16 = u16::MAX;
    let mut max: u16 = 0;
    let mut i: usize = 0;
    while i < THERMAL_PIXELS
        invariant
            i <= THERMAL_PIXELS,
            frame@.len() >= FRAME_MIN_LEN,
            img == raw_image(frame@),
            forall|k: int| 0 <= k < i ==> raw@[k] == img[k],
            min == seq_min(img.take(i as int)),
            max == seq_max(img.take(i as int)),
        decreases THERMAL_PIXELS - i,
    {
        let x: usize = i % THERMAL_W;
        let y: usize = i / THERMAL_W;
        // The two-pixel gap in each row half is handled by the +4 offset for x >= 80.
        let base: usize = if x < 80 {
            32 + 2 * (y * THERMAL_STRIDE + x)
        } else {
            36 + 2 * (y * THERMAL_STRIDE + x)
        };
        let v: u16 = frame[base] as u16 + 256 * (frame[base + 1] as u16);
        assert(v == img[i as int]);
        raw[i] = v;
        if v < min {
            min = v;
        }
        if v > max {
            max = v;
        }
        proof {
            assert(img.take(i + 1).drop_last() =~= img.take(i as int));
        }
        i = i + 1;
    }
    proof {
        assert(img.take(THERMAL_PIXELS as int) =~= img);
        lemma_min_max_bounds(img, 0);
    }
    // Min-max normalise to 8-bit.
    let delta: u32 = (max - min) as u32;
    let mut gray = [0u8; 19200];
    let mut j: usize = 0;
    while j < THERMAL_PIXELS
        invariant
            j <= THERMAL_PIXELS,
            img == raw_image(frame@),
            min == seq_min(img),
            max == seq_max(img),
            delta == max - min,
            forall|k: int| 0 <= k < THERMAL_PIXELS ==> raw@[k] == img[k],
            forall|k: int| 0 <= k < j ==> gray@[k] == gray_level(img[k], min, max),
        decreases THERMAL_PIXELS - j,
    {
        proof {
            lemma_min_max_bounds(img, j as int);
        }
        gray[j] = if delta > 0 {
            let g: u32 = (raw[j] - min) as u32 * 256 / delta;
            if g > 255 {
                255
            } else {
                g as u8
            }
        } else {
            0
        };
        j = j + 1;
    }
    proof {
        assert(gray@ =~= thermal_gray(frame@));
        assert(raw@[9680] == img[9680]);
    }
    ThermalFrame { gray, center_raw: raw[9680] }
}

// ── Reassembly ──────────────────────────────────────────────────────────────

#[derive(Clone, Copy, PartialEq, Eq)]
enum FfcState {
    Normal,
    /// Skip the first frame after an FFC shutter event.
    SkipOne,
}

/// Reassembles USB bulk chunks into frames and hands out their thermal images.
pub struct FrameAccumulator {
    buf: Vec<u8>,
    len: usize,
    ffc: FfcState,
}

impl FrameAccumulator {
    /// The bytes accumulated so far.
    pub closed spec fn data(&self) -> Seq<u8> {
        self.buf@.take(self.len as int)
    }

    /// The next complete frame is to be dropped.
    pub closed spec fn skip_next(&self) -> bool {
        self.ffc is SkipOne
    }

    /// Well-formedness: a full-size buffer holding a pending frame.
    pub closed spec fn wf(&self) -> bool {
        &&& self.buf@.len() == BUF_SIZE
        &&& self.len < BUF_SIZE
        &&& pending_frame(self.data())
    }

    /// An empty accumulator.
    pub fn new() -> (a: Self)
        ensures
            a.wf(),
            pending_frame(a.data()),
            a.data() == Seq::<u8>::empty(),
            !a.skip_next(),
    {
        let a = FrameAccumulator { buf: vec![0u8; BUF_SIZE], len: 0, ffc: FfcState::Normal };
        assert(a.data() =~= Seq::<u8>::empty());
        a
    }

    /// Byte `k` of the data that taking in `chunk` would give.
    fn acc_byte(&self, chunk: &[u8], fresh: bool, k: usize) -> (b: u8)
        requires
            self.wf(),
            chunk@.len() < BUF_SIZE,
            fresh == (has_magic(chunk@) || self.len + chunk@.len() >= BUF_SIZE),
            k < appended(self.data(), chunk@).len(),
        ensures
            b == appended(self.data(), chunk@)[k as int],
    {
        if fresh {
            chunk[k]
        } else if k < self.len {
            self.buf[k]
        } else {
            chunk[k - self.len]
        }
    }

    /// The little-endian `u32` at `off` of the data that taking in `chunk` would give.
    fn acc_u32(&self, chunk: &[u8], fresh: bool, off: usize) -> (v: u32)
        requires
            self.wf(),
            chunk@.len() < BUF_SIZE,
            fresh == (has_magic(chunk@) || self.len + chunk@.len() >= BUF_SIZE),
            off + 4 <= appended(self.data(), chunk@).len(),
        ensures
            v == le_u32(appended(self.data(), chunk@), off as int),
    {
        let b0 = self.acc_byte(chunk, fresh, off);
        let b1 = self.acc_byte(chunk, fresh, off + 1);
        let b2 = self.acc_byte(chunk, fresh, off + 2);
        let b3 = self.acc_byte(chunk, fresh, off + 3);
        b0 as u32 + 256 * (b1 as u32) + 65536 * (b2 as u32) + 16777216 * (b3 as u32)
    }

    /// Classifies `chunk` without taking it in.
    fn classify(&self, chunk: &[u8]) -> (o: ChunkOutcome)
        requires
            self.wf(),
        ensures
            o == outcome(self.data(), self.skip_next(), chunk@),
    {
        if chunk.len() == 0 || chunk.len() >= BUF_SIZE {
            return ChunkOutcome::Ignored;
        }
        let magic_chunk = chunk.len() >= 4 && chunk[0] == 0xEF && chunk[1] == 0xBE && chunk[2]
            == 0 && chunk[3] == 0;
        let fresh = magic_chunk || self.len + chunk.len() >= BUF_SIZE;
        let ghost acc = appended(self.data(), chunk@);
        let n: usize = if fresh {
            chunk.len()
        } else {
            self.len + chunk.len()
        };
        assert(n == acc.len());
        if n < 4 || self.acc_byte(chunk, fresh, 0) != 0xEF || self.acc_byte(chunk, fresh, 1)
            != 0xBE || self.acc_byte(chunk, fresh, 2) != 0 || self.acc_byte(chunk, fresh, 3)
            != 0 {
            return ChunkOutcome::Discarded;
        }
        if n < HEADER_LEN {
            return ChunkOutcome::Pending;
        }
        let frame_size = self.acc_u32(chunk, fresh, 8);
        let thermal_size = self.acc_u32(chunk, fresh, 12);
        let jpg_size = self.acc_u32(chunk, fresh, 16);
        let total: u64 = frame_size as u64 + 28;
        if (n as u64) < total {
            return ChunkOutcome::Pending;
        }
        // Check for an FFC shutter event in the status block.
        let ffc_offset: u64 = 28 + thermal_size as u64 + jpg_size as u64 + 17;
        let is_ffc = ffc_offset + 3 <= total && self.acc_byte(chunk, fresh, ffc_offset as usize)
            == 0x46 && self.acc_byte(chunk, fresh, (ffc_offset + 1) as usize) == 0x46
            && self.acc_byte(chunk, fresh, (ffc_offset + 2) as usize) == 0x43;
        if is_ffc {
            return ChunkOutcome::FlatFieldEvent;
        }
        match self.ffc {
            FfcState::SkipOne => ChunkOutcome::SkippedAfterFfc,
            FfcState::Normal => ChunkOutcome::Complete(total as usize),
        }
    }

    /// Copies `chunk` after the accumulated data, starting afresh when the
    /// chunk opens with the magic bytes or would not fit.
    fn take_in(&mut self, chunk: &[u8])
        requires
            old(self).wf(),
            0 < chunk@.len() < BUF_SIZE,
        ensures
            final(self).buf@.len() == BUF_SIZE,
            final(self).len < BUF_SIZE,
            final(self).ffc == old(self).ffc,
            final(self).data() == appended(old(self).data(), chunk@),
    {
        let magic_chunk = chunk.len() >= 4 && chunk[0] == 0xEF && chunk[1] == 0xBE && chunk[2]
            == 0 && chunk[3] == 0;
        // A magic header at the start of a chunk signals the beginning of a new
        // frame; also reset if the buffer would overflow.
        if magic_chunk || self.len + chunk.len() >= BUF_SIZE {
            self.len = 0;
        }
        let ghost before = self.data();
        let start = self.len;
        let mut i: usize = 0;
        while i < chunk.len()
            invariant
                self.buf@.len() == BUF_SIZE,
                self.len == start,
                self.ffc == old(self).ffc,
                start + chunk@.len() < BUF_SIZE,
                i <= chunk@.len(),
                self.buf@.take(start as int) == before,
                forall|k: int| 0 <= k < i ==> self.buf@[start + k] == chunk@[k],
            decreases chunk@.len() - i,
        {
            self.buf.set(start + i, chunk[i]);
            proof {
                assert(self.buf@.take(start as int) =~= before);
            }
            i = i + 1;
        }
        self.len = start + chunk.len();
        proof {
            assert(self.data() =~= before + chunk@);
        }
    }

    /// Feeds a raw USB chunk. Returns a complete thermal frame when one is ready.
    pub fn push_chunk(&mut self, chunk: &[u8]) -> (res: Option<ThermalFrame>)
        requires
            old(self).wf(),
            !step_yields_short_frame(old(self).data(), old(self).skip_next(), chunk@),
        ensures
            final(self).wf(),
            pending_frame(final(self).data()),
            final(self).data() == step(old(self).data(), old(self).skip_next(), chunk@).0,
            final(self).skip_next() == step(old(self).data(), old(self).skip_next(), chunk@).1,
            res is Some <==> step(old(self).data(), old(self).skip_next(), chunk@).2 is Some,
            res matches Some(t) ==> {
                let f = step(old(self).data(), old(self).skip_next(), chunk@).2.unwrap();
                &&& t.gray@ == thermal_gray(f)
                &&& t.center_raw == thermal_center(f)
            },
    {
        proof {
            law_accumulator_holds_pending_frame(self.data(), self.skip_next(), chunk@);
        }
        match self.classify(chunk) {
            ChunkOutcome::Ignored => None,
            ChunkOutcome::Discarded => {
                self.len = 0;
                None
            },
            ChunkOutcome::Pending => {
                self.take_in(chunk);
                None
            },
            ChunkOutcome::FlatFieldEvent => {
                self.len = 0;
                self.ffc = FfcState::SkipOne;
                None
            },
            ChunkOutcome::SkippedAfterFfc => {
                self.len = 0;
                self.ffc = FfcState::Normal;
                None
            },
            ChunkOutcome::Complete(total) => {
                self.take_in(chunk);
                let frame = &self.buf.as_slice()[0..total];
                assert(frame@ == self.data().take(total as int));
                let thermal = extract_thermal(frame);
                // The frame is consumed.
                self.len = 0;
                Some(thermal)
            },
        }
    }

    /// Feeding `chunk` would complete a frame too short to hold the thermal
    /// image (`push_chunk` must not be given such a chunk).
    pub fn completes_short_frame(&self, chunk: &[u8]) -> (b: bool)
        requires
            self.wf(),
        ensures
            b == step_yields_short_frame(self.data(), self.skip_next(), chunk@),
    {
        match self.classify(chunk) {
            ChunkOutcome::Complete(total) => total < FRAME_MIN_LEN,
            _ => false,
        }
    }
}

/// Feeding a chunk to an accumulator that holds a pending frame leaves it
/// holding a pending frame.
pub proof fn law_accumulator_holds_pending_frame(data: Seq<u8>, skip: bool, chunk: Seq<u8>)
    requires
        pending_frame(data),
    ensures
        pending_frame(step(data, skip, chunk).0),
{
}

} // verus!

//! Token2 OTP USB-HID framing — **not** CTAP-HID. The OTP applet wraps APDUs in
//! its own 64-byte report frames:
//!
//! ```text
//! 21 || (flags|seq) || len || chunk[..=61] || zero-pad
//! ```
//!
//! and the host prepends a `0x00` report-ID byte, making the write 65 bytes.
//! The device may answer a long-running command with `0xC0` "still working"
//! frames the host must poll past without advancing its sequence counter.

use crate::text;
use vstd::prelude::*;
use vstd::slice::slice_subrange;

verus! {

/// HID report size: 64 payload bytes. The host write is 65 bytes (leading
/// `0x00` report ID).
pub const REPORT_PAYLOAD: usize = 64;

/// Bytes of one host write: the report ID and the payload.
pub const REPORT_LEN: usize = REPORT_PAYLOAD + 1;

/// Header bytes inside the 64-byte payload: magic(1) + flags/seq(1) + len(1).
pub const PAYLOAD_HEADER: usize = 3;

/// Max useful APDU bytes per frame: `64 - 3 = 61`.
pub const MAX_CHUNK: usize = REPORT_PAYLOAD - PAYLOAD_HEADER;

/// The magic byte that opens every 64-byte payload.
pub const MAGIC: u8 = 0x21;

/// Flag nibble — more chunks follow.
pub const FLAG_MORE: u8 = 0x20;

/// Flag nibble — device still working; host should poll again.
pub const FLAG_BUSY: u8 = 0xC0;

/// Flag nibble — last/only chunk.
pub const FLAG_LAST: u8 = 0x00;

// --- sending -------------------------------------------------------------------

/// How many frames carry `len` bytes: as few as hold them, and one at the least.
pub open spec fn frame_count(len: nat) -> nat {
    if len == 0 {
        1
    } else {
        ((len - 1) / MAX_CHUNK as int + 1) as nat
    }
}

/// The part of `apdu` that frame `i` carries.
pub open spec fn chunk_of(apdu: Seq<u8>, i: int) -> Seq<u8> {
    let from = MAX_CHUNK * i;
    let to = if from + MAX_CHUNK < apdu.len() {
        from + MAX_CHUNK
    } else {
        apdu.len() as int
    };
    apdu.subrange(from, to)
}

/// Frame `i` of `apdu`: report ID, magic, flags with the sequence number modulo
/// 16, chunk length, chunk, and zeros up to the report's length.
pub open spec fn send_frame(apdu: Seq<u8>, i: int) -> Seq<u8> {
    let flags = if i + 1 == frame_count(apdu.len()) {
        FLAG_LAST
    } else {
        FLAG_MORE
    };
    let chunk = chunk_of(apdu, i);
    seq![0x00u8, MAGIC, flags | (i % 16) as u8, chunk.len() as u8] + chunk + Seq::new(
        (MAX_CHUNK - chunk.len()) as nat,
        |j: int| 0u8,
    )
}

/// All frames of `apdu`, in the order in which they are sent.
pub open spec fn send_frames(apdu: Seq<u8>) -> Seq<Seq<u8>> {
    Seq::new(frame_count(apdu.len()), |i: int| send_frame(apdu, i))
}

/// The chunks lie in `apdu`: all are full but the last, which is not empty
/// unless `apdu` is.
proof fn lemma_chunk_bounds(apdu: Seq<u8>, i: int)
    requires
        0 <= i < frame_count(apdu.len()),
    ensures
        0 <= MAX_CHUNK * i <= apdu.len(),
        i + 1 < frame_count(apdu.len()) <==> MAX_CHUNK * i + MAX_CHUNK < apdu.len(),
        chunk_of(apdu, i).len() <= MAX_CHUNK,
        i + 1 < frame_count(apdu.len()) ==> chunk_of(apdu, i).len() == MAX_CHUNK,
        i + 1 == frame_count(apdu.len()) ==> MAX_CHUNK * i + chunk_of(apdu, i).len() == apdu.len(),
{
}

/// The report of one frame, byte by byte.
fn build_frame(flags_seq: u8, chunk: &[u8]) -> (frame: [u8; REPORT_LEN])
    requires
        chunk@.len() <= MAX_CHUNK,
    ensures
        frame@ == seq![0x00u8, MAGIC, flags_seq, chunk@.len() as u8] + chunk@ + Seq::new(
            (MAX_CHUNK - chunk@.len()) as nat,
            |j: int| 0u8,
        ),
{
    let mut frame = [0u8;REPORT_LEN];
    frame[1] = MAGIC;
    frame[2] = flags_seq;
    frame[3] = chunk.len() as u8;
    for j in 0..chunk.len()
        invariant
            chunk@.len() <= MAX_CHUNK,
            frame@.len() == REPORT_LEN,
            frame@[0] == 0,
            frame@[1] == MAGIC,
            frame@[2] == flags_seq,
            frame@[3] == chunk@.len(),
            forall|k: int| 0 <= k < j ==> frame@[4 + k] == chunk@[k],
            forall|k: int| 4 + j <= k < REPORT_LEN ==> frame@[k] == 0,
    {
        frame[4 + j] = chunk[j];
    }
    frame
}

/// Build the sequence of 65-byte output reports for one APDU.
pub fn build_send_frames(apdu: &[u8]) -> (frames: Vec<[u8; REPORT_LEN]>)
    ensures
        frames@.len() == frame_count(apdu@.len()),
        forall|i: int| 0 <= i < frames@.len() ==> (#[trigger] frames@[i])@ == send_frame(apdu@, i),
{
    let len: usize = apdu.len();
    let total_chunks: usize = if len == 0 {
        1
    } else {
        (len - 1) / MAX_CHUNK + 1
    };
    let mut frames: Vec<[u8; REPORT_LEN]> = Vec::new();
    for i in 0..total_chunks
        invariant
            len == apdu@.len(),
            total_chunks == frame_count(apdu@.len()),
            frames@.len() == i,
            forall|k: int| 0 <= k < i ==> (#[trigger] frames@[k])@ == send_frame(apdu@, k),
    {
        proof {
            lemma_chunk_bounds(apdu@, i as int);
        }
        let is_last = i + 1 == total_chunks;
        let flags: u8 = if is_last {
            FLAG_LAST
        } else {
            FLAG_MORE
        };
        let seq: u8 = (i % 16) as u8;
        let from: usize = MAX_CHUNK * i;
        let to: usize = if is_last {
            len
        } else {
            from + MAX_CHUNK
        };
        let chunk = slice_subrange(apdu, from, to);
        assert(chunk@ == chunk_of(apdu@, i as int));
        frames.push(build_frame(flags | seq, chunk));
    }
    frames
}

// --- receiving -----------------------------------------------------------------

/// What the caller should do after offering a received frame to the assembler.
#[derive(Debug, Clone, Copy, PartialEq, Eq, Structural)]
pub enum Step {
    /// More response frames are expected — read another report.
    NeedMore,
    /// Device is busy (a `0xC0` frame). Read another report; do not advance.
    /// `retries` counts consecutive busy frames so a "press the button" prompt
    /// can fire at ~3.
    Busy { retries: u32 },
    /// The response is complete; call `into_response`.
    Done,
}

/// Errors surfaced while assembling a HID response.
#[derive(Debug, Clone, PartialEq, Eq, Structural)]
pub enum FrameError {
    BadMagic,
    ChunkTooLong(u8),
    OutOfSequence { expected: u8, got: u8 },
    ShortFrame,
}

impl FrameError {
    /// The text that names the error to a user.
    pub open spec fn text(self) -> Seq<char> {
        match self {
            FrameError::BadMagic => "HID frame magic byte was not 0x21"@,
            FrameError::ChunkTooLong(n) => "HID chunk length "@ + text::decimal_digits(n as nat)
                + " exceeds 61"@,
            FrameError::OutOfSequence { expected, got } => "HID frame out of sequence: expected "@
                + text::decimal_digits(expected as nat) + ", got "@ + text::decimal_digits(
                got as nat,
            ),
            FrameError::ShortFrame => "HID frame shorter than its 3-byte header"@,
        }
    }

    /// The text that names the error to a user.
    pub fn to_string(&self) -> (s: String)
        ensures
            s@ == self.text(),
    {
        match self {
            FrameError::BadMagic => text::owned("HID frame magic byte was not 0x21"),
            FrameError::ChunkTooLong(n) => {
                let mut s = text::owned("HID chunk length ");
                text::append(&mut s, text::decimal(*n as u64).as_str());
                text::append(&mut s, " exceeds 61");
                s
            },
            FrameError::OutOfSequence { expected, got } => {
                let mut s = text::owned("HID frame out of sequence: expected ");
                text::append(&mut s, text::decimal(*expected as u64).as_str());
                text::append(&mut s, ", got ");
                text::append(&mut s, text::decimal(*got as u64).as_str());
                s
            },
            FrameError::ShortFrame => text::owned("HID frame shorter than its 3-byte header"),
        }
    }
}

/// What an assembler holds between two frames.
pub struct AssemblerState {
    /// The response bytes so far.
    pub buf: Seq<u8>,
    /// How many chunks were accepted, modulo 256.
    pub received: u8,
    /// How many busy frames came in a row.
    pub busy_retries: u32,
    /// Whether the last chunk has come.
    pub done: bool,
}

/// The state before the first frame.
pub open spec fn fresh() -> AssemblerState {
    AssemblerState { buf: seq![], received: 0, busy_retries: 0, done: false }
}

/// The payload of a report, with or without the report-ID byte before it.
pub open spec fn payload_of(raw: Seq<u8>) -> Seq<u8> {
    if raw.len() >= 2 && raw[0] == 0x00 && raw[1] == MAGIC {
        raw.skip(1)
    } else {
        raw
    }
}

/// A well-formed header that says "still working".
pub open spec fn is_busy(raw: Seq<u8>) -> bool {
    let p = payload_of(raw);
    &&& p.len() >= PAYLOAD_HEADER
    &&& p[0] == MAGIC
    &&& p[1] & 0xF0 == FLAG_BUSY
}

/// The state after a frame, and what the caller is told.
pub open spec fn accept(s: AssemblerState, raw: Seq<u8>) -> (
    AssemblerState,
    Result<Step, FrameError>,
) {
    let p = payload_of(raw);
    if p.len() < PAYLOAD_HEADER {
        (s, Err(FrameError::ShortFrame))
    } else if p[0] != MAGIC {
        (s, Err(FrameError::BadMagic))
    } else if is_busy(raw) {
        let retries = (s.busy_retries + 1) as u32;
        (AssemblerState { busy_retries: retries, ..s }, Ok(Step::Busy { retries }))
    } else {
        let idle = AssemblerState { busy_retries: 0, ..s };
        let expected = s.received % 16;
        let got = p[1] & 0x0F;
        let len = p[2];
        let counted = AssemblerState { received: ((s.received + 1) % 256) as u8, ..idle };
        if got != expected {
            (idle, Err(FrameError::OutOfSequence { expected, got }))
        } else if len > MAX_CHUNK {
            (counted, Err(FrameError::ChunkTooLong(len)))
        } else if p.len() < PAYLOAD_HEADER + len {
            (counted, Err(FrameError::ShortFrame))
        } else {
            let buf = s.buf + p.subrange(PAYLOAD_HEADER as int, PAYLOAD_HEADER + len);
            if (p[1] & 0xF0) & FLAG_MORE != 0 {
                (AssemblerState { buf, ..counted }, Ok(Step::NeedMore))
            } else {
                (AssemblerState { buf, done: true, ..counted }, Ok(Step::Done))
            }
        }
    }
}

/// A response taken apart: all but its last two bytes, and the status word that
/// those two spell.
pub open spec fn split_response(buf: Seq<u8>) -> Option<(Seq<u8>, u16)> {
    if buf.len() < 2 {
        None
    } else {
        let n = buf.len() - 2;
        Some((buf.take(n), (buf[n] * 256 + buf[n + 1]) as u16))
    }
}

/// Reassembles a multi-frame device response. The caller passes the payload
/// positioned so byte 0 is the `0x21` magic, or with the leading report-ID byte
/// still present — the magic position is detected per frame.
pub struct ResponseAssembler {
    buf: Vec<u8>,
    received: u8,
    busy_retries: u32,
    done: bool,
}

impl View for ResponseAssembler {
    type V = AssemblerState;

    closed spec fn view(&self) -> AssemblerState {
        AssemblerState {
            buf: self.buf@,
            received: self.received,
            busy_retries: self.busy_retries,
            done: self.done,
        }
    }
}

impl Default for ResponseAssembler {
    /// An assembler that has seen no frame.
    fn default() -> (r: Self)
        ensures
            r@ == fresh(),
    {
        ResponseAssembler { buf: Vec::new(), received: 0, busy_retries: 0, done: false }
    }
}

impl ResponseAssembler {
    /// An assembler that has seen no frame.
    pub fn new() -> (r: Self)
        ensures
            r@ == fresh(),
    {
        Self::default()
    }

    /// Offer one received report. The count of busy frames in a row must stay in
    /// its 32 bits.
    pub fn push(&mut self, raw: &[u8]) -> (r: Result<Step, FrameError>)
        requires
            is_busy(raw@) ==> old(self)@.busy_retries < u32::MAX,
        ensures
            (final(self)@, r) == accept(old(self)@, raw@),
    {
        let payload: &[u8] = if raw.len() >= 2 && raw[0] == 0x00 && raw[1] == MAGIC {
            slice_subrange(raw, 1, raw.len())
        } else {
            raw
        };
        assert(payload@ == payload_of(raw@));

        if payload.len() < PAYLOAD_HEADER {
            return Err(FrameError::ShortFrame);
        }
        if payload[0] != MAGIC {
            return Err(FrameError::BadMagic);
        }
        let flags: u8 = payload[1] & 0xF0;
        let seq: u8 = payload[1] & 0x0F;

        if flags == FLAG_BUSY {
            self.busy_retries = self.busy_retries + 1;
            return Ok(Step::Busy { retries: self.busy_retries });
        }
        self.busy_retries = 0;

        if seq != self.received % 16 {
            return Err(FrameError::OutOfSequence { expected: self.received % 16, got: seq });
        }
        self.received = self.received.wrapping_add(1);

        let len: u8 = payload[2];
        if len as usize > MAX_CHUNK {
            return Err(FrameError::ChunkTooLong(len));
        }
        let end: usize = PAYLOAD_HEADER + len as usize;
        if payload.len() < end {
            return Err(FrameError::ShortFrame);
        }
        let chunk = slice_subrange(payload, PAYLOAD_HEADER, end);
        self.buf.extend_from_slice(chunk);
        assert(self.buf@ == old(self)@.buf + payload@.subrange(PAYLOAD_HEADER as int, end as int));

        if flags & FLAG_MORE != 0 {
            Ok(Step::NeedMore)
        } else {
            self.done = true;
            Ok(Step::Done)
        }
    }

    /// Whether the last chunk has come.
    pub fn is_done(&self) -> (r: bool)
        ensures
            r == self@.done,
    {
        self.done
    }

    /// Consume the assembler and return `(response_data, status_word)`.
    pub fn into_response(self) -> (r: Option<(Vec<u8>, u16)>)
        ensures
            match r {
                Some((data, sw)) => split_response(self@.buf) == Some((data@, sw)),
                None => split_response(self@.buf) is None,
            },
    {
        if self.buf.len() < 2 {
            return None;
        }
        let split: usize = self.buf.len() - 2;
        let hi: u8 = self.buf[split];
        let lo: u8 = self.buf[split + 1];
        let sw: u16 = ((hi as u16) << 8) | lo as u16;
        assert(((hi as u16) << 8) | lo as u16 == hi * 256 + lo) by (bit_vector);
        let mut data = self.buf;
        data.truncate(split);
        Some((data, sw))
    }
}

// --- laws ----------------------------------------------------------------------

/// The state after a run of frames, whatever the caller is told on the way.
pub open spec fn feed(s: AssemblerState, frames: Seq<Seq<u8>>) -> AssemblerState
    decreases frames.len(),
{
    if frames.len() == 0 {
        s
    } else {
        accept(feed(s, frames.drop_last()), frames.last()).0
    }
}

/// What the header of frame `i` tells the assembler.
proof fn lemma_send_frame_header(apdu: Seq<u8>, i: int)
    requires
        0 <= i < frame_count(apdu.len()),
    ensures
        ({
            let p = payload_of(send_frame(apdu, i));
            let last = i + 1 == frame_count(apdu.len());
            &&& p.len() == REPORT_PAYLOAD
            &&& p[0] == MAGIC
            &&& p[1] & 0x0F == i % 16
            &&& p[1] & 0xF0 != FLAG_BUSY
            &&& ((p[1] & 0xF0) & FLAG_MORE != 0) == !last
            &&& p[2] == chunk_of(apdu, i).len()
            &&& p.subrange(3, 3 + p[2]) == chunk_of(apdu, i)
        }),
{
    lemma_chunk_bounds(apdu, i);
    let f = send_frame(apdu, i);
    let p = payload_of(f);
    let seq = (i % 16) as u8;
    assert(f[0] == 0x00 && f[1] == MAGIC);
    assert(p == f.skip(1));
    assert(seq < 16);
    assert((0x00u8 | seq) & 0x0F == seq && (0x20u8 | seq) & 0x0F == seq && (0x00u8 | seq) & 0xF0
        == 0x00 && (0x20u8 | seq) & 0xF0 == 0x20 && 0x20u8 & 0x20 == 0x20 && 0x00u8 & 0x20 == 0)
        by (bit_vector)
        requires
            seq < 16,
    ;
    assert(p.subrange(3, 3 + p[2]) == chunk_of(apdu, i));
}

/// What an assembler that waits for frame `i` of `apdu` makes of it.
proof fn lemma_accept_frame(s: AssemblerState, apdu: Seq<u8>, i: int)
    requires
        0 <= i < frame_count(apdu.len()),
        s.received == i % 256,
    ensures
        ({
            let last = i + 1 == frame_count(apdu.len());
            let (t, step) = accept(s, send_frame(apdu, i));
            &&& t.buf == s.buf + chunk_of(apdu, i)
            &&& t.received == (i + 1) % 256
            &&& t.busy_retries == 0
            &&& t.done == (s.done || last)
            &&& step == Ok::<Step, FrameError>(
                if last {
                    Step::Done
                } else {
                    Step::NeedMore
                },
            )
        }),
{
    lemma_chunk_bounds(apdu, i);
    lemma_send_frame_header(apdu, i);
}

/// The chunks of `apdu` up to `i` are its front.
proof fn lemma_chunks_join(apdu: Seq<u8>, i: int)
    requires
        0 <= i < frame_count(apdu.len()),
    ensures
        i + 1 == frame_count(apdu.len()) ==> apdu.take(MAX_CHUNK * i) + chunk_of(apdu, i) == apdu,
        i + 1 < frame_count(apdu.len()) ==> apdu.take(MAX_CHUNK * i) + chunk_of(apdu, i)
            == apdu.take(MAX_CHUNK * (i + 1)),
{
    lemma_chunk_bounds(apdu, i);
    let from = MAX_CHUNK * i;
    assert(MAX_CHUNK * (i + 1) == from + MAX_CHUNK) by (nonlinear_arith)
        requires
            from == MAX_CHUNK * i,
    ;
    if i + 1 == frame_count(apdu.len()) {
        assert(apdu.take(from) + chunk_of(apdu, i) == apdu);
    } else {
        assert(apdu.take(from) + chunk_of(apdu, i) == apdu.take(from + MAX_CHUNK));
    }
}

/// The state after the first `k` frames of `apdu`.
#[verifier::spinoff_prover]
#[verifier::rlimit(40)]
proof fn lemma_feed_prefix(apdu: Seq<u8>, k: int)
    requires
        0 <= k <= frame_count(apdu.len()),
    ensures
        ({
            let s = feed(fresh(), send_frames(apdu).take(k));
            let held = if k == frame_count(apdu.len()) {
                apdu
            } else {
                apdu.take(MAX_CHUNK * k)
            };
            &&& s.buf == held
            &&& s.received == k % 256
            &&& s.busy_retries == 0
            &&& s.done == (k == frame_count(apdu.len()))
        }),
    decreases k,
{
    let frames = send_frames(apdu);
    if k > 0 {
        lemma_feed_prefix(apdu, k - 1);
        assert(frames.take(k).drop_last() == frames.take(k - 1));
        assert(frames.take(k).last() == send_frame(apdu, k - 1));
        lemma_accept_frame(feed(fresh(), frames.take(k - 1)), apdu, k - 1);
        lemma_chunks_join(apdu, k - 1);
    } else {
        assert(frames.take(0) == Seq::<Seq<u8>>::empty());
        assert(apdu.take(MAX_CHUNK * 0) == Seq::<u8>::empty());
    }
}

/// Framing loses nothing: a fresh assembler that is offered the frames of any
/// byte string, in order, asks for more after each frame but the last, is done
/// after the last, and holds exactly those bytes.
pub proof fn law_frames_reassemble(apdu: Seq<u8>)
    ensures
        feed(fresh(), send_frames(apdu)).buf == apdu,
        feed(fresh(), send_frames(apdu)).done,
        forall|k: int|
            0 <= k < frame_count(apdu.len()) ==> (#[trigger] accept(
                feed(fresh(), send_frames(apdu).take(k)),
                send_frame(apdu, k),
            )).1 == Ok::<Step, FrameError>(
                if k + 1 == frame_count(apdu.len()) {
                    Step::Done
                } else {
                    Step::NeedMore
                },
            ),
{
    let n = frame_count(apdu.len()) as int;
    lemma_feed_prefix(apdu, n);
    assert(send_frames(apdu).take(n) == send_frames(apdu));
    assert forall|k: int| 0 <= k < n implies (#[trigger] accept(
        feed(fresh(), send_frames(apdu).take(k)),
        send_frame(apdu, k),
    )).1 == Ok::<Step, FrameError>(
        if k + 1 == n {
            Step::Done
        } else {
            Step::NeedMore
        },
    ) by {
        lemma_feed_prefix(apdu, k);
        lemma_accept_frame(feed(fresh(), send_frames(apdu).take(k)), apdu, k);
    }
}

/// A response of `data` and a status word, sent in frames, is taken apart into
/// that data and that status word.
pub proof fn law_response_round_trip(data: Seq<u8>, sw: u16)
    ensures
        split_response(
            feed(
                fresh(),
                send_frames(data + seq![(sw / 256) as u8, (sw % 256) as u8]),
            ).buf,
        ) == Some((data, sw)),
{
    let body = data + seq![(sw / 256) as u8, (sw % 256) as u8];
    law_frames_reassemble(body);
    assert(body.take(data.len() as int) == data);
}

/// A busy frame leaves the bytes, the sequence counter and the completion as they
/// are; it only counts itself.
pub proof fn law_busy_does_not_advance(s: AssemblerState, raw: Seq<u8>)
    requires
        is_busy(raw),
        s.busy_retries < u32::MAX,
    ensures
        accept(s, raw) == (
            AssemblerState { busy_retries: (s.busy_retries + 1) as u32, ..s },
            Ok::<Step, FrameError>(Step::Busy { retries: (s.busy_retries + 1) as u32 }),
        ),
{
}

/// The number told with a busy frame counts the busy frames in a row: any run of
/// them is counted on from what came before.
pub proof fn law_busy_frames_are_counted(s: AssemblerState, frames: Seq<Seq<u8>>)
    requires
        forall|k: int| 0 <= k < frames.len() ==> is_busy(#[trigger] frames[k]),
        s.busy_retries + frames.len() <= u32::MAX,
    ensures
        feed(s, frames) == (AssemblerState {
            busy_retries: (s.busy_retries + frames.len()) as u32,
            ..s
        }),
    decreases frames.len(),
{
    if frames.len() > 0 {
        assert(is_busy(frames[frames.len() - 1]));
        assert forall|k: int| 0 <= k < frames.drop_last().len() implies is_busy(
            #[trigger] frames.drop_last()[k],
        ) by {
            assert(is_busy(frames[k]));
        }
        law_busy_frames_are_counted(s, frames.drop_last());
        law_busy_does_not_advance(feed(s, frames.drop_last()), frames.last());
    }
}

/// Busy frames among the others make no difference to what is assembled: the
/// bytes, the sequence counter and the completion are those of the run without
/// them.
pub proof fn law_busy_frames_are_transparent(s: AssemblerState, frames: Seq<Seq<u8>>)
    ensures
        ({
            let all = feed(s, frames);
            let rest = feed(s, frames.filter(|f: Seq<u8>| !is_busy(f)));
            all.buf == rest.buf && all.received == rest.received && all.done == rest.done
        }),
    decreases frames.len(),
{
    let keep = |f: Seq<u8>| !is_busy(f);
    reveal(Seq::filter);
    if frames.len() > 0 {
        law_busy_frames_are_transparent(s, frames.drop_last());
        let rest = frames.drop_last().filter(keep);
        if keep(frames.last()) {
            assert(rest.push(frames.last()).drop_last() == rest);
        }
    }
}

/// As many frames are sent as hold the bytes, 61 to a frame, and no more; and one
/// frame where there are no bytes.
pub proof fn law_frame_count(len: nat)
    ensures
        frame_count(len) >= 1,
        len <= 61 * frame_count(len),
        len > 0 ==> 61 * (frame_count(len) - 1) < len,
        len == 0 ==> frame_count(len) == 1,
{
}

/// A frame in bytes: the report ID, the magic byte, the flag for more frames with the
/// number of the frame modulo 16, the count of bytes it carries, these bytes from
/// their place in the whole, and zeros up to 65 bytes.
pub proof fn law_frame_layout(apdu: Seq<u8>, i: int)
    requires
        0 <= i < frame_count(apdu.len()),
    ensures
        send_frames(apdu).len() == frame_count(apdu.len()),
        send_frames(apdu)[i] == send_frame(apdu, i),
        ({
            let f = send_frame(apdu, i);
            let left = apdu.len() - 61 * i;
            let n = if left > 61 {
                61
            } else {
                left
            };
            &&& f.len() == 65
            &&& f[0] == 0x00 && f[1] == 0x21
            &&& f[2] == i % 16 + (if left > 61 {
                0x20int
            } else {
                0
            })
            &&& f[3] == n
            &&& forall|j: int| 0 <= j < n ==> f[4 + j] == #[trigger] apdu[61 * i + j]
            &&& forall|j: int| 4 + n <= j < 65 ==> #[trigger] f[j] == 0
        }),
{
    lemma_chunk_bounds(apdu, i);
    let f = send_frame(apdu, i);
    let chunk = chunk_of(apdu, i);
    let seq = (i % 16) as u8;
    assert(0x20u8 | seq == 0x20 + seq && 0x00u8 | seq == seq) by (bit_vector)
        requires
            seq < 16,
    ;
    let left = apdu.len() - 61 * i;
    let n = chunk.len() as int;
    assert forall|j: int| 0 <= j < n implies f[4 + j] == #[trigger] apdu[61 * i + j] by {
        assert(f[4 + j] == chunk[j]);
    }
}

/// A report may come with its report-ID byte or without it: that makes no
/// difference.
pub proof fn law_report_id_is_optional(s: AssemblerState, p: Seq<u8>)
    requires
        p.len() > 0,
        p[0] == 0x21,
    ensures
        accept(s, seq![0x00u8] + p) == accept(s, p),
        is_busy(seq![0x00u8] + p) == is_busy(p),
{
    let raw = seq![0x00u8] + p;
    assert(payload_of(raw) == p);
    assert(payload_of(p) == p);
}

/// What a report without a report-ID byte does, byte by byte. One without a whole
/// header or with another magic byte changes nothing. A busy one only counts
/// itself. Any other ends a run of busy ones; out of sequence it does nothing more,
/// and in sequence it is counted, and its bytes are put behind those that came
/// before where all of them are there and a frame can hold as many. The flag for
/// more frames decides whether the response is complete.
pub proof fn law_frame_is_taken(s: AssemblerState, p: Seq<u8>)
    requires
        p.len() < 2 || p[0] != 0x00 || p[1] != 0x21,
    ensures
        ({
            let (t, r) = accept(s, p);
            let n = p[2] as int;
            let header = p.len() >= 3 && p[0] == 0x21;
            let busy = header && p[1] / 16 == 12;
            let data = header && !busy;
            let in_turn = data && p[1] % 16 == s.received % 16;
            let whole = in_turn && n <= 61 && p.len() >= 3 + n;
            &&& p.len() < 3 ==> t == s && r == Err::<Step, FrameError>(FrameError::ShortFrame)
            &&& p.len() >= 3 && p[0] != 0x21 ==> t == s && r == Err::<Step, FrameError>(
                FrameError::BadMagic,
            )
            &&& is_busy(p) <==> busy
            &&& busy && s.busy_retries < u32::MAX ==> {
                &&& r == Ok::<Step, FrameError>(Step::Busy { retries: (s.busy_retries + 1) as u32 })
                &&& t.busy_retries == s.busy_retries + 1
            }
            &&& busy ==> t.buf == s.buf && t.received == s.received && t.done == s.done
            &&& data ==> t.busy_retries == 0
            &&& data && !in_turn ==> {
                &&& r == Err::<Step, FrameError>(
                    FrameError::OutOfSequence { expected: s.received % 16, got: p[1] % 16 },
                )
                &&& t.buf == s.buf && t.received == s.received && t.done == s.done
            }
            &&& in_turn ==> t.received == (s.received + 1) % 256
            &&& in_turn && n > 61 ==> r == Err::<Step, FrameError>(FrameError::ChunkTooLong(p[2]))
            &&& in_turn && n <= 61 && p.len() < 3 + n ==> r == Err::<Step, FrameError>(
                FrameError::ShortFrame,
            )
            &&& in_turn && !whole ==> t.buf == s.buf && t.done == s.done
            &&& whole ==> {
                &&& t.buf.len() == s.buf.len() + n
                &&& forall|i: int| 0 <= i < s.buf.len() ==> t.buf[i] == #[trigger] s.buf[i]
                &&& forall|i: int| 3 <= i < 3 + n ==> t.buf[s.buf.len() + i - 3] == #[trigger] p[i]
                &&& p[1] / 32 % 2 == 1 ==> r == Ok::<Step, FrameError>(Step::NeedMore) && t.done
                    == s.done
                &&& p[1] / 32 % 2 == 0 ==> r == Ok::<Step, FrameError>(Step::Done) && t.done
            }
        }),
{
    assert(payload_of(p) == p);
    if p.len() >= 3 {
        let b = p[1];
        assert((b & 0xF0 == 0xC0 <==> b / 16 == 12) && b & 0x0F == b % 16 && ((b & 0xF0) & 0x20 != 0
            <==> b / 32 % 2 == 1)) by (bit_vector);
        if p.len() >= 3 + p[2] {
            let chunk = p.subrange(3, 3 + p[2]);
            assert(forall|i: int| 3 <= i < 3 + p[2] ==> #[trigger] p[i] == chunk[i - 3]);
        }
    }
}

/// Frames act one after the other, from a state that holds nothing.
pub proof fn law_frames_act_in_order(s: AssemblerState, frames: Seq<Seq<u8>>, f: Seq<u8>)
    ensures
        fresh().buf.len() == 0 && fresh().received == 0 && fresh().busy_retries == 0
            && !fresh().done,
        feed(s, seq![]) == s,
        feed(s, frames.push(f)) == accept(feed(s, frames), f).0,
{
    assert(frames.push(f).drop_last() == frames);
}

/// A response is its bytes but for the last two, which spell the status word with
/// the higher byte first; with fewer bytes there is none.
pub proof fn law_response_ends_in_its_status(data: Seq<u8>, hi: u8, lo: u8, one: Seq<u8>)
    requires
        one.len() < 2,
    ensures
        split_response(data + seq![hi, lo]) == Some((data, (hi * 256 + lo) as u16)),
        split_response(one) is None,
{
    let buf = data + seq![hi, lo];
    assert(buf.take(data.len() as int) == data);
}

/// A frame error names the numbers that it is about, in decimal and in order.
pub proof fn law_frame_errors_are_named(n: u8, expected: u8, got: u8)
    ensures
        FrameError::BadMagic.text() == "HID frame magic byte was not 0x21"@,
        FrameError::ShortFrame.text() == "HID frame shorter than its 3-byte header"@,
        ({
            let t = FrameError::ChunkTooLong(n).text();
            let a = "HID chunk length "@;
            let z = " exceeds 61"@;
            &&& t.take(a.len() as int) == a
            &&& t.skip(t.len() - z.len()) == z
            &&& text::number(t.subrange(a.len() as int, t.len() - z.len()), 10) == Some(n as nat)
        }),
        ({
            let t = FrameError::OutOfSequence { expected, got }.text();
            let d = text::decimal_digits(expected as nat);
            let a = "HID frame out of sequence: expected "@ + d + ", got "@;
            &&& t.take(a.len() as int) == a
            &&& text::number(d, 10) == Some(expected as nat)
            &&& text::number(t.skip(a.len() as int), 10) == Some(got as nat)
        }),
{
    text::law_decimal(n as nat);
    text::law_decimal(expected as nat);
    text::law_decimal(got as nat);
    let t = FrameError::ChunkTooLong(n).text();
    let a = "HID chunk length "@;
    let z = " exceeds 61"@;
    assert(t.take(a.len() as int) == a);
    assert(t.skip(t.len() - z.len()) == z);
    assert(t.subrange(a.len() as int, t.len() - z.len()) == text::decimal_digits(n as nat));
    let t = FrameError::OutOfSequence { expected, got }.text();
    let d = text::decimal_digits(expected as nat);
    let a = "HID frame out of sequence: expected "@ + d + ", got "@;
    assert(t.take(a.len() as int) == a);
    assert(t.skip(a.len() as int) == text::decimal_digits(got as nat));
}

} // verus!

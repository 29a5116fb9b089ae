//! Decoding of the chunked transfer coding.
//!
//! The decoder is a byte automaton: `step` says what one byte does to its
//! state and which payload byte, if any, it yields. `decode_run` folds `step`
//! over a byte sequence. The executable decoder advances the automaton over
//! as much input as the output buffer allows, so that a stream split
//! anywhere across calls decodes as the whole stream would.
use vstd::prelude::*;

use crate::HootError;

verus! {

pub const CR: u8 = 13;

pub const LF: u8 = 10;

pub const SP: u8 = 32;

pub const HTAB: u8 = 9;

pub const SEMICOLON: u8 = 59;

/// The largest chunk size that one more hex digit cannot overflow.
pub const MAX_SHIFTABLE: u64 = 0x0fff_ffff_ffff_ffff;

/// Where the decoder stands in the chunked stream.
#[derive(Clone, Copy, PartialEq, Eq, Structural, Debug)]
pub enum ChunkState {
    /// Reading the hex digits of a chunk size; `digits` once one was read.
    Size { value: u64, digits: bool },
    /// Skipping a chunk extension up to the end of the size line.
    Ext { value: u64 },
    /// The size line's CR was read; its LF is due.
    SizeLf { value: u64 },
    /// Copying chunk data, `remaining` bytes of it still to come.
    Data { remaining: u64 },
    /// Chunk data is done; the CR after it is due.
    DataCr,
    /// The LF after chunk data is due.
    DataLf,
    /// At the start of a trailer line, after the last chunk's size line.
    TrailerStart,
    /// Inside a trailer field line, which is skipped.
    Trailer,
    /// The LF of a trailer field line is due.
    TrailerLf,
    /// The CR of the empty line that ends the body was read; its LF is due.
    FinalLf,
    /// The whole chunked body has been read.
    Ended,
}

/// The value of a hexadecimal digit.
pub open spec fn hex_digit(b: u8) -> Option<u64> {
    if 48 <= b <= 57 {
        Some((b - 48) as u64)
    } else if 97 <= b <= 102 {
        Some((b - 87) as u64)
    } else if 65 <= b <= 70 {
        Some((b - 55) as u64)
    } else {
        None
    }
}

/// What one input byte does: the next state and the payload byte it yields,
/// or `None` where the byte breaks the chunked syntax.
pub open spec fn step(s: ChunkState, b: u8) -> Option<(ChunkState, Option<u8>)> {
    match s {
        ChunkState::Size { value, digits } => match hex_digit(b) {
            Some(d) => if value <= MAX_SHIFTABLE {
                Some((ChunkState::Size { value: (value * 16 + d) as u64, digits: true }, None))
            } else {
                None
            },
            None => if !digits {
                None
            } else if b == CR {
                Some((ChunkState::SizeLf { value }, None))
            } else if b == SEMICOLON || b == SP || b == HTAB {
                Some((ChunkState::Ext { value }, None))
            } else {
                None
            },
        },
        ChunkState::Ext { value } => if b == CR {
            Some((ChunkState::SizeLf { value }, None))
        } else {
            Some((ChunkState::Ext { value }, None))
        },
        ChunkState::SizeLf { value } => if b != LF {
            None
        } else if value == 0 {
            Some((ChunkState::TrailerStart, None))
        } else {
            Some((ChunkState::Data { remaining: value }, None))
        },
        ChunkState::Data { remaining } => if remaining <= 1 {
            Some((ChunkState::DataCr, Some(b)))
        } else {
            Some((ChunkState::Data { remaining: (remaining - 1) as u64 }, Some(b)))
        },
        ChunkState::DataCr => if b == CR {
            Some((ChunkState::DataLf, None))
        } else {
            None
        },
        ChunkState::DataLf => if b == LF {
            Some((ChunkState::Size { value: 0, digits: false }, None))
        } else {
            None
        },
        ChunkState::TrailerStart => if b == CR {
            Some((ChunkState::FinalLf, None))
        } else {
            Some((ChunkState::Trailer, None))
        },
        ChunkState::Trailer => if b == CR {
            Some((ChunkState::TrailerLf, None))
        } else {
            Some((ChunkState::Trailer, None))
        },
        ChunkState::TrailerLf => if b == LF {
            Some((ChunkState::TrailerStart, None))
        } else {
            None
        },
        ChunkState::FinalLf => if b == LF {
            Some((ChunkState::Ended, None))
        } else {
            None
        },
        // nothing of the chunked body follows its end
        ChunkState::Ended => None,
    }
}

/// The state reached and the payload produced by decoding `input` from `s`,
/// or `None` where `input` breaks the chunked syntax.
pub open spec fn decode_run(s: ChunkState, input: Seq<u8>) -> Option<(ChunkState, Seq<u8>)>
    decreases input.len(),
{
    if input.len() == 0 {
        Some((s, Seq::empty()))
    } else {
        match decode_run(s, input.drop_last()) {
            None => None,
            Some((s1, out)) => match step(s1, input.last()) {
                None => None,
                Some((s2, Some(b))) => Some((s2, out.push(b))),
                Some((s2, None)) => Some((s2, out)),
            },
        }
    }
}

/// The state in which a chunked body starts.
pub open spec fn start_state() -> ChunkState {
    ChunkState::Size { value: 0, digits: false }
}

/// Decoding a stream in two pieces gives the state and the payload that
/// decoding it whole gives: the payload is the two pieces' payloads in turn.
pub proof fn lemma_decode_run_concat(s: ChunkState, a: Seq<u8>, b: Seq<u8>)
    ensures
        decode_run(s, a + b) == (match decode_run(s, a) {
            None => None,
            Some((s1, o1)) => match decode_run(s1, b) {
                None => None,
                Some((s2, o2)) => Some((s2, o1 + o2)),
            },
        }),
    decreases b.len(),
{
    if b.len() == 0 {
        assert(a + b =~= a);
        match decode_run(s, a) {
            None => {},
            Some((s1, o1)) => {
                assert(o1 + Seq::<u8>::empty() =~= o1);
            },
        }
    } else {
        lemma_decode_run_concat(s, a, b.drop_last());
        assert((a + b).drop_last() =~= a + b.drop_last());
        assert((a + b).last() == b.last());
        match decode_run(s, a) {
            None => {},
            Some((s1, o1)) => {
                match decode_run(s1, b.drop_last()) {
                    None => {},
                    Some((s2, o2)) => {
                        match step(s2, b.last()) {
                            None => {},
                            Some((s3, Some(x))) => {
                                assert(o1 + o2.push(x) =~= (o1 + o2).push(x));
                            },
                            Some((s3, None)) => {},
                        }
                    },
                }
            },
        }
    }
}

/// Once the input breaks the syntax, no more input mends it.
pub proof fn lemma_decode_run_fail_extends(s: ChunkState, a: Seq<u8>, b: Seq<u8>)
    requires
        decode_run(s, a) is None,
    ensures
        decode_run(s, a + b) is None,
{
    lemma_decode_run_concat(s, a, b);
}

/// The states that follow the last chunk's size line.
pub open spec fn after_last_chunk(s: ChunkState) -> bool {
    s is TrailerStart || s is Trailer || s is TrailerLf || s is FinalLf || s is Ended
}

/// The decoder gets past the last chunk, and so to its end, only by way of
/// a chunk-size line of value zero: some part of the input, read from the
/// start, ends on such a line's CR.
pub proof fn lemma_end_only_after_zero_chunk(input: Seq<u8>)
    requires
        decode_run(start_state(), input) matches Some((s, _)) && after_last_chunk(s),
    ensures
        exists|k: int|
            0 <= k < input.len() && decode_run(start_state(), #[trigger] input.subrange(0, k))
                matches Some((ChunkState::SizeLf { value: 0 }, _)),
    decreases input.len(),
{
    if input.len() == 0 {
        assert(false);
    } else {
        let dl = input.drop_last();
        let (prev, _) = decode_run(start_state(), dl).unwrap();
        assert(dl =~= input.subrange(0, input.len() - 1));
        if after_last_chunk(prev) {
            lemma_end_only_after_zero_chunk(dl);
            let k = choose|k: int|
                0 <= k < dl.len() && decode_run(start_state(), #[trigger] dl.subrange(0, k))
                    matches Some((ChunkState::SizeLf { value: 0 }, _));
            assert(dl.subrange(0, k) =~= input.subrange(0, k));
        }
    }
}

/// The lower-case hex digit of `d`, which is under 16.
pub open spec fn hex_char(d: nat) -> u8 {
    if d < 10 {
        (48 + d) as u8
    } else {
        (87 + d) as u8
    }
}

/// `n` written in lower-case hex, without leading zeros.
pub open spec fn hex_digits(n: nat) -> Seq<u8>
    decreases n,
{
    if n < 16 {
        seq![hex_char(n)]
    } else {
        hex_digits(n / 16).push(hex_char(n % 16))
    }
}

pub open spec fn crlf() -> Seq<u8> {
    seq![CR, LF]
}

/// One chunk carrying `data`: its size line, the data and the CRLF after it.
pub open spec fn encode_chunk(data: Seq<u8>) -> Seq<u8> {
    hex_digits(data.len()) + crlf() + data + crlf()
}

/// The last chunk and the empty line that ends the body.
pub open spec fn last_chunk() -> Seq<u8> {
    seq![48u8, CR, LF, CR, LF]
}

/// A chunked body carrying `chunks` in turn, with no extensions or trailers.
pub open spec fn encode_chunks(chunks: Seq<Seq<u8>>) -> Seq<u8>
    decreases chunks.len(),
{
    if chunks.len() == 0 {
        last_chunk()
    } else {
        encode_chunk(chunks[0]) + encode_chunks(chunks.drop_first())
    }
}

proof fn lemma_run_one(s: ChunkState, b: u8)
    ensures
        decode_run(s, seq![b]) == (match step(s, b) {
            None => None,
            Some((s2, Some(x))) => Some((s2, seq![x])),
            Some((s2, None)) => Some((s2, Seq::<u8>::empty())),
        }),
{
    assert(seq![b].drop_last() =~= Seq::<u8>::empty());
    assert(decode_run(s, Seq::<u8>::empty()) == Some((s, Seq::<u8>::empty())));
    assert(seq![b].last() == b);
    match step(s, b) {
        Some((s2, Some(x))) => {
            assert(Seq::<u8>::empty().push(x) =~= seq![x]);
        },
        _ => {},
    }
}

proof fn lemma_run_two(s: ChunkState, a: u8, b: u8)
    ensures
        decode_run(s, seq![a, b]) == (match decode_run(s, seq![a]) {
            None => None,
            Some((s1, o1)) => match decode_run(s1, seq![b]) {
                None => None,
                Some((s2, o2)) => Some((s2, o1 + o2)),
            },
        }),
{
    lemma_decode_run_concat(s, seq![a], seq![b]);
    assert(seq![a] + seq![b] =~= seq![a, b]);
}

/// The size line's digits read from the start of a chunk give its size.
proof fn lemma_run_hex(n: nat)
    requires
        n <= u64::MAX,
    ensures
        decode_run(start_state(), hex_digits(n)) == Some(
            (ChunkState::Size { value: n as u64, digits: true }, Seq::<u8>::empty()),
        ),
    decreases n,
{
    if n < 16 {
        lemma_run_one(start_state(), hex_char(n));
    } else {
        lemma_run_hex(n / 16);
        let h = hex_digits(n / 16).push(hex_char(n % 16));
        assert(h.drop_last() =~= hex_digits(n / 16));
        assert((n / 16) * 16 + n % 16 == n);
    }
}

/// Chunk data is copied out byte for byte until the chunk is done.
proof fn lemma_run_data(r: u64, d: Seq<u8>)
    requires
        0 < d.len() <= r,
    ensures
        decode_run(ChunkState::Data { remaining: r }, d) == Some(
            (
                if d.len() == r {
                    ChunkState::DataCr
                } else {
                    ChunkState::Data { remaining: (r - d.len()) as u64 }
                },
                d,
            ),
        ),
    decreases d.len(),
{
    if d.len() == 1 {
        lemma_run_one(ChunkState::Data { remaining: r }, d[0]);
        assert(d =~= seq![d[0]]);
    } else {
        lemma_run_data(r, d.drop_last());
        assert(d.drop_last().push(d.last()) =~= d);
    }
}

/// A chunk of nonempty data, read from the start of a chunk, yields its
/// data and leaves the decoder at the start of the next chunk.
proof fn lemma_run_chunk(data: Seq<u8>)
    requires
        0 < data.len() <= u64::MAX,
    ensures
        decode_run(start_state(), encode_chunk(data)) == Some((start_state(), data)),
{
    let n = data.len();
    let hex = hex_digits(n);
    lemma_run_hex(n);
    let size = ChunkState::Size { value: n as u64, digits: true };
    lemma_run_two(size, CR, LF);
    lemma_run_one(size, CR);
    lemma_run_one(ChunkState::SizeLf { value: n as u64 }, LF);
    lemma_decode_run_concat(start_state(), hex, crlf());
    lemma_run_data(n as u64, data);
    lemma_decode_run_concat(start_state(), hex + crlf(), data);
    lemma_run_two(ChunkState::DataCr, CR, LF);
    lemma_run_one(ChunkState::DataCr, CR);
    lemma_run_one(ChunkState::DataLf, LF);
    lemma_decode_run_concat(start_state(), hex + crlf() + data, crlf());
    assert(Seq::<u8>::empty() + Seq::<u8>::empty() =~= Seq::<u8>::empty());
    assert(Seq::<u8>::empty() + data =~= data);
    assert(data + Seq::<u8>::empty() =~= data);
}

proof fn lemma_run_last_chunk()
    ensures
        decode_run(start_state(), last_chunk()) == Some((ChunkState::Ended, Seq::<u8>::empty())),
{
    let e = Seq::<u8>::empty();
    let s0 = start_state();
    let s1 = ChunkState::Size { value: 0, digits: true };
    let s2 = ChunkState::SizeLf { value: 0 };
    lemma_run_one(s0, 48u8);
    lemma_run_one(s1, CR);
    lemma_run_one(s2, LF);
    lemma_run_one(ChunkState::TrailerStart, CR);
    lemma_run_one(ChunkState::FinalLf, LF);
    lemma_decode_run_concat(s0, seq![48u8], seq![CR]);
    lemma_decode_run_concat(s0, seq![48u8, CR], seq![LF]);
    lemma_decode_run_concat(s0, seq![48u8, CR, LF], seq![CR]);
    lemma_decode_run_concat(s0, seq![48u8, CR, LF, CR], seq![LF]);
    assert(seq![48u8] + seq![CR] =~= seq![48u8, CR]);
    assert(seq![48u8, CR] + seq![LF] =~= seq![48u8, CR, LF]);
    assert(seq![48u8, CR, LF] + seq![CR] =~= seq![48u8, CR, LF, CR]);
    assert(seq![48u8, CR, LF, CR] + seq![LF] =~= last_chunk());
    assert(e + e =~= e);
}

proof fn lemma_run_from_end(b: Seq<u8>)
    requires
        b.len() > 0,
    ensures
        decode_run(ChunkState::Ended, b) is None,
    decreases b.len(),
{
    if b.len() > 1 {
        lemma_run_from_end(b.drop_last());
    } else {
        assert(b.drop_last() =~= Seq::<u8>::empty());
        assert(decode_run(ChunkState::Ended, b.drop_last()) == Some(
            (ChunkState::Ended, Seq::<u8>::empty()),
        ));
    }
}

/// Where input that goes on after `a` is accepted, reading `a` alone does
/// not reach the end of the body.
pub proof fn lemma_nothing_after_end(s: ChunkState, a: Seq<u8>, b: Seq<u8>)
    requires
        decode_run(s, a + b) is Some,
        b.len() > 0,
    ensures
        decode_run(s, a) matches Some((t, _)) && t != ChunkState::Ended,
{
    lemma_decode_run_concat(s, a, b);
    lemma_run_from_end(b);
}

/// A chunked body made of nonempty chunks decodes to their data in turn,
/// and the decoder has reached the end of the body exactly when the last
/// byte of the terminating empty chunk and line has been read.
pub proof fn lemma_decode_chunks(chunks: Seq<Seq<u8>>)
    requires
        forall|i: int| 0 <= i < chunks.len() ==> 0 < (#[trigger] chunks[i]).len() <= u64::MAX,
    ensures
        decode_run(start_state(), encode_chunks(chunks)) == Some(
            (ChunkState::Ended, chunks.flatten()),
        ),
        forall|k: int|
            0 <= k < encode_chunks(chunks).len() ==> (decode_run(
                start_state(),
                #[trigger] encode_chunks(chunks).subrange(0, k),
            ) matches Some((t, _)) && t != ChunkState::Ended),
    decreases chunks.len(),
{
    lemma_decode_chunks_payload(chunks);
    let enc = encode_chunks(chunks);
    assert forall|k: int| 0 <= k < enc.len() implies (decode_run(
        start_state(),
        #[trigger] enc.subrange(0, k),
    ) matches Some((t, _)) && t != ChunkState::Ended) by {
        assert(enc.subrange(0, k) + enc.subrange(k, enc.len() as int) =~= enc);
        lemma_nothing_after_end(start_state(), enc.subrange(0, k), enc.subrange(k, enc.len() as int));
    }
}

proof fn lemma_decode_chunks_payload(chunks: Seq<Seq<u8>>)
    requires
        forall|i: int| 0 <= i < chunks.len() ==> 0 < (#[trigger] chunks[i]).len() <= u64::MAX,
    ensures
        decode_run(start_state(), encode_chunks(chunks)) == Some(
            (ChunkState::Ended, chunks.flatten()),
        ),
    decreases chunks.len(),
{
    if chunks.len() == 0 {
        lemma_run_last_chunk();
    } else {
        let rest = chunks.drop_first();
        assert forall|i: int| 0 <= i < rest.len() implies 0 < (#[trigger] rest[i]).len() <= u64::MAX by {
            assert(rest[i] == chunks[i + 1]);
        }
        lemma_decode_chunks_payload(rest);
        lemma_run_chunk(chunks[0]);
        lemma_decode_run_concat(start_state(), encode_chunk(chunks[0]), encode_chunks(rest));
    }
}

/// A decoder of the chunked transfer coding that keeps its place between calls.
#[derive(Clone, Copy, Debug)]
pub struct Dechunker {
    state: ChunkState,
}

impl View for Dechunker {
    type V = ChunkState;

    closed spec fn view(&self) -> ChunkState {
        self.state
    }
}

/// What `step` says, computed.
fn step_exec(s: ChunkState, b: u8) -> (r: Option<(ChunkState, Option<u8>)>)
    ensures
        r == step(s, b),
{
    match s {
        ChunkState::Size { value, digits } => {
            let d: u64 = if 48 <= b && b <= 57 {
                (b - 48) as u64
            } else if 97 <= b && b <= 102 {
                (b - 87) as u64
            } else if 65 <= b && b <= 70 {
                (b - 55) as u64
            } else {
                16
            };
            if d < 16 {
                if value <= MAX_SHIFTABLE {
                    Some((ChunkState::Size { value: value * 16 + d, digits: true }, None))
                } else {
                    None
                }
            } else if !digits {
                None
            } else if b == CR {
                Some((ChunkState::SizeLf { value }, None))
            } else if b == SEMICOLON || b == SP || b == HTAB {
                Some((ChunkState::Ext { value }, None))
            } else {
                None
            }
        },
        ChunkState::Ext { value } => if b == CR {
            Some((ChunkState::SizeLf { value }, None))
        } else {
            Some((ChunkState::Ext { value }, None))
        },
        ChunkState::SizeLf { value } => if b != LF {
            None
        } else if value == 0 {
            Some((ChunkState::TrailerStart, None))
        } else {
            Some((ChunkState::Data { remaining: value }, None))
        },
        ChunkState::Data { remaining } => if remaining <= 1 {
            Some((ChunkState::DataCr, Some(b)))
        } else {
            Some((ChunkState::Data { remaining: remaining - 1 }, Some(b)))
        },
        ChunkState::DataCr => if b == CR {
            Some((ChunkState::DataLf, None))
        } else {
            None
        },
        ChunkState::DataLf => if b == LF {
            Some((ChunkState::Size { value: 0, digits: false }, None))
        } else {
            None
        },
        ChunkState::TrailerStart => if b == CR {
            Some((ChunkState::FinalLf, None))
        } else {
            Some((ChunkState::Trailer, None))
        },
        ChunkState::Trailer => if b == CR {
            Some((ChunkState::TrailerLf, None))
        } else {
            Some((ChunkState::Trailer, None))
        },
        ChunkState::TrailerLf => if b == LF {
            Some((ChunkState::TrailerStart, None))
        } else {
            None
        },
        ChunkState::FinalLf => if b == LF {
            Some((ChunkState::Ended, None))
        } else {
            None
        },
        ChunkState::Ended => None,
    }
}

impl Dechunker {
    pub fn new() -> (r: Self)
        ensures
            r@ == start_state(),
    {
        Dechunker { state: ChunkState::Size { value: 0, digits: false } }
    }

    /// Whether the terminating zero-length chunk and the empty line after
    /// it have been read.
    pub fn is_ended(&self) -> (r: bool)
        ensures
            r == (self@ is Ended),
    {
        match self.state {
            ChunkState::Ended => true,
            _ => false,
        }
    }

    /// Decodes `src` from index `start` on into the front of `dst`, as far as
    /// both allow, and returns the input bytes used and the payload bytes
    /// written. It stops only at the end of `src`, at the end of the chunked
    /// body, or where `dst` is full and chunk data is next.
    pub fn decode_at(&mut self, src: &[u8], start: usize, dst: &mut [u8]) -> (r: Result<
        (usize, usize),
        HootError,
    >)
        requires
            start <= src@.len(),
        ensures
            final(dst)@.len() == old(dst)@.len(),
            match r {
                Ok((used, produced)) => {
                    &&& start + used <= src@.len()
                    &&& produced <= old(dst)@.len()
                    &&& decode_run(old(self)@, src@.subrange(start as int, start + used))
                        == Some((final(self)@, final(dst)@.subrange(0, produced as int)))
                    &&& final(dst)@.subrange(produced as int, final(dst)@.len() as int) == old(
                        dst,
                    )@.subrange(produced as int, old(dst)@.len() as int)
                    &&& (start + used == src@.len() || final(self)@ is Ended || (
                    final(self)@ is Data && produced == old(dst)@.len()))
                },
                Err(e) => {
                    &&& e == HootError::InvalidChunk
                    &&& !(final(self)@ is Ended)
                    &&& exists|k: int|
                        start <= k < src@.len() && decode_run(
                            old(self)@,
                            #[trigger] src@.subrange(start as int, k + 1),
                        ) is None
                },
            },
    {
        let mut i: usize = start;
        let mut o: usize = 0;
        proof {
            assert(src@.subrange(start as int, start as int) =~= Seq::<u8>::empty());
            assert(dst@.subrange(0, 0) =~= Seq::<u8>::empty());
        }
        while i < src.len()
            invariant_except_break
                start <= i <= src@.len(),
                o <= dst@.len(),
                dst@.len() == old(dst)@.len(),
                forall|k: int| o <= k < dst@.len() ==> dst@[k] == old(dst)@[k],
                decode_run(old(self)@, src@.subrange(start as int, i as int)) == Some(
                    (self@, dst@.subrange(0, o as int)),
                ),
            ensures
                start <= i <= src@.len(),
                o <= dst@.len(),
                dst@.len() == old(dst)@.len(),
                forall|k: int| o <= k < dst@.len() ==> dst@[k] == old(dst)@[k],
                decode_run(old(self)@, src@.subrange(start as int, i as int)) == Some(
                    (self@, dst@.subrange(0, o as int)),
                ),
                i == src@.len() || self@ is Ended || (self@ is Data && o == dst@.len()),
            decreases src@.len() - i,
        {
            if self.is_ended() {
                break;
            }
            let full = o == dst.len();
            if full {
                if let ChunkState::Data { .. } = self.state {
                    break;
                }
            }
            let b = src[i];
            let ghost prev = src@.subrange(start as int, i as int);
            let ghost out_prev = dst@.subrange(0, o as int);
            proof {
                assert(src@.subrange(start as int, i + 1).drop_last() =~= prev);
                assert(src@.subrange(start as int, i + 1).last() == b);
            }
            match step_exec(self.state, b) {
                None => {
                    proof {
                        assert(decode_run(old(self)@, src@.subrange(start as int, i + 1)) is None);
                    }
                    return Err(HootError::InvalidChunk);
                },
                Some((next, out)) => {
                    match out {
                        Some(x) => {
                            dst[o] = x;
                            o = o + 1;
                            proof {
                                assert(dst@.subrange(0, o as int) =~= out_prev.push(x));
                            }
                        },
                        None => {},
                    }
                    self.state = next;
                    i = i + 1;
                },
            }
        }
        assert(dst@.subrange(o as int, dst@.len() as int) =~= old(dst)@.subrange(
            o as int,
            old(dst)@.len() as int,
        ));
        Ok((i - start, o))
    }

    /// Decodes `src` into `dst`: `decode_at` from the start of `src`.
    pub fn parse_input(&mut self, src: &[u8], dst: &mut [u8]) -> (r: Result<
        (usize, usize),
        HootError,
    >)
        ensures
            final(dst)@.len() == old(dst)@.len(),
            match r {
                Ok((used, produced)) => {
                    &&& used <= src@.len()
                    &&& produced <= old(dst)@.len()
                    &&& decode_run(old(self)@, src@.subrange(0, used as int)) == Some(
                        (final(self)@, final(dst)@.subrange(0, produced as int)),
                    )
                    &&& final(dst)@.subrange(produced as int, final(dst)@.len() as int) == old(
                        dst,
                    )@.subrange(produced as int, old(dst)@.len() as int)
                    &&& (used == src@.len() || final(self)@ is Ended || (final(self)@ is Data
                        && produced == old(dst)@.len()))
                },
                Err(e) => {
                    &&& e == HootError::InvalidChunk
                    &&& exists|k: int|
                        0 <= k < src@.len() && decode_run(
                            old(self)@,
                            #[trigger] src@.subrange(0, k + 1),
                        ) is None
                },
            },
    {
        self.decode_at(src, 0, dst)
    }
}

} // verus!

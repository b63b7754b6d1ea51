//! The sliding-window dictionary coder of the directory layout.
//!
//! A packed stream is a row of blocks. Each block opens with a signed 16-bit
//! big-endian length `n`. Zero ends the stream. A negative `n` is followed by
//! `|n|` bytes that are taken over as they are. A positive `n` is followed by
//! `n` bytes of coded units, which are decoded against a window of 4096
//! bytes that starts afresh with every block.
use crate::endian::{be_i16_at, read_be_i16};
use crate::error::ArchiveError;
use vstd::prelude::*;
use vstd::slice::slice_subrange;

verus! {

/// Number of bytes in the window.
pub const DICT_SIZE: usize = 4096;

/// Longest run that one back-reference can copy.
pub const MAX_MATCH: usize = 18;

/// What the decoder of one block has built up so far.
pub struct Decoder {
    /// The window, always `DICT_SIZE` bytes.
    pub window: Seq<u8>,
    /// Where the next byte is written into the window.
    pub cursor: int,
    /// The bytes that the block has produced.
    pub output: Seq<u8>,
}

impl Decoder {
    /// The state in which every packed block starts: a window of spaces,
    /// written from position `DICT_SIZE - MAX_MATCH` on, and no output.
    pub open spec fn start() -> Decoder {
        Decoder {
            window: Seq::new(DICT_SIZE as nat, |i: int| 0x20u8),
            cursor: DICT_SIZE - MAX_MATCH,
            output: Seq::empty(),
        }
    }

    /// The window has its size and the cursor lies inside it.
    pub open spec fn wf(self) -> bool {
        self.window.len() == DICT_SIZE && 0 <= self.cursor < DICT_SIZE
    }

    /// One byte goes to the output and into the window.
    pub open spec fn literal(self, b: u8) -> Decoder {
        Decoder {
            window: self.window.update(self.cursor, b),
            cursor: (self.cursor + 1) % (DICT_SIZE as int),
            output: self.output.push(b),
        }
    }

    /// `count` bytes are read from the window, starting at `from` and
    /// wrapping at its end, each going to the output and back into the
    /// window before the next is read.
    pub open spec fn copy(self, from: int, count: nat) -> Decoder
        decreases count,
    {
        if count == 0 {
            self
        } else {
            self.literal(self.window[from % (DICT_SIZE as int)]).copy(from + 1, (count - 1) as nat)
        }
    }
}

/// Window position that the two bytes of a back-reference name: twelve bits,
/// the low eight from `b1`, the high four from the upper half of `b2`.
pub open spec fn reference_position(b1: u8, b2: u8) -> int {
    b1 + (b2 / 16) * 256
}

/// Number of bytes that a back-reference copies: the lower half of `b2`
/// plus three.
pub open spec fn reference_count(b2: u8) -> nat {
    (b2 % 16 + 3) as nat
}

/// Decodes the units of `block` from index `i` on. `flags` is the flag
/// register: it is halved before each unit, and is filled again from the
/// stream, with the marker `0xff00` above the new byte, whenever its bit 8
/// has run out. Bit 0 then tells a literal from a back-reference. A unit
/// that the end of the block cuts short is dropped.
pub open spec fn decode_units(block: Seq<u8>, i: int, flags: int, st: Decoder) -> Decoder
    decreases block.len() - i,
{
    if i < 0 || i >= block.len() {
        st
    } else {
        let shifted = flags / 2;
        let refill = (shifted / 0x100) % 2 == 0;
        let f = if refill {
            0xff00 + block[i]
        } else {
            shifted
        };
        let j = if refill {
            i + 1
        } else {
            i
        };
        if j >= block.len() {
            st
        } else if f % 2 == 1 {
            decode_units(block, j + 1, f, st.literal(block[j]))
        } else if j + 1 >= block.len() {
            st
        } else {
            decode_units(
                block,
                j + 2,
                f,
                st.copy(reference_position(block[j], block[j + 1]), reference_count(block[j + 1])),
            )
        }
    }
}

/// The bytes that one packed block stands for.
pub open spec fn unpack_block(block: Seq<u8>) -> Seq<u8> {
    decode_units(block, 0, 0, Decoder::start()).output
}

/// `head` in front of what `tail` holds, where it holds anything.
pub open spec fn prepend(head: Seq<u8>, tail: Option<Seq<u8>>) -> Option<Seq<u8>> {
    match tail {
        Some(t) => Some(head + t),
        None => None,
    }
}

/// The bytes that the blocks from `pos` on stand for, or nothing where a
/// block announces more bytes than the stream holds. The stream ends at a
/// zero length, or where fewer than two bytes are left for a length.
pub open spec fn decode_blocks(input: Seq<u8>, pos: int) -> Option<Seq<u8>>
    decreases input.len() - pos,
{
    if pos < 0 || pos + 2 > input.len() {
        Some(Seq::empty())
    } else {
        let n = be_i16_at(input, pos);
        let body = pos + 2;
        if n == 0 {
            Some(Seq::empty())
        } else if n < 0 {
            if body - n > input.len() {
                None
            } else {
                prepend(input.subrange(body, body - n), decode_blocks(input, body - n))
            }
        } else {
            if body + n > input.len() {
                None
            } else {
                prepend(
                    unpack_block(input.subrange(body, body + n)),
                    decode_blocks(input, body + n),
                )
            }
        }
    }
}

/// The bytes that a packed stream stands for, or nothing where it is damaged.
pub open spec fn unpack(input: Seq<u8>) -> Option<Seq<u8>> {
    decode_blocks(input, 0)
}

/// Appends to `out` the `count` bytes that a back-reference to `from` copies
/// out of the window.
fn copy_from_window(
    window: &mut Vec<u8>,
    cursor: &mut usize,
    out: &mut Vec<u8>,
    from: usize,
    count: usize,
    Ghost(base): Ghost<Seq<u8>>,
    Ghost(st): Ghost<Decoder>,
)
    requires
        st.wf(),
        old(window)@ == st.window,
        *old(cursor) == st.cursor,
        old(out)@ == base + st.output,
        from < DICT_SIZE,
        count <= MAX_MATCH,
    ensures
        st.copy(from as int, count as nat).wf(),
        final(window)@ == st.copy(from as int, count as nat).window,
        *final(cursor) == st.copy(from as int, count as nat).cursor,
        final(out)@ == base + st.copy(from as int, count as nat).output,
{
    let ghost mut cur = st;
    let mut k: usize = 0;
    while k < count
        invariant
            k <= count <= MAX_MATCH,
            from < DICT_SIZE,
            cur.wf(),
            window@ == cur.window,
            *cursor == cur.cursor,
            out@ == base + cur.output,
            cur.copy(from + k, (count - k) as nat) == st.copy(from as int, count as nat),
        decreases count - k,
    {
        let at: usize = (from + k) % DICT_SIZE;
        let byte: u8 = window[at];
        proof {
            assert(base + cur.output.push(byte) == (base + cur.output).push(byte));
            cur = cur.literal(byte);
        }
        out.push(byte);
        window.set(*cursor, byte);
        *cursor = (*cursor + 1) % DICT_SIZE;
        k = k + 1;
    }
}

/// Appends to `out` the bytes that the packed block `block` stands for.
fn unpack_block_into(block: &[u8], out: &mut Vec<u8>)
    ensures
        final(out)@ == old(out)@ + unpack_block(block@),
{
    let ghost base = out@;
    let ghost mut st = Decoder::start();
    let mut window: Vec<u8> = vec![0x20u8; DICT_SIZE];
    let mut cursor: usize = DICT_SIZE - MAX_MATCH;
    let mut flags: u16 = 0;
    let mut i: usize = 0;
    let n: usize = block.len();
    proof {
        assert(window@ == st.window);
        assert(base + st.output == base);
    }
    while i < n
        invariant_except_break
            decode_units(block@, i as int, flags as int, st) == decode_units(
                block@,
                0,
                0,
                Decoder::start(),
            ),
        invariant
            n == block@.len(),
            i <= n,
            st.wf(),
            window@ == st.window,
            cursor == st.cursor,
            out@ == base + st.output,
        ensures
            st == decode_units(block@, 0, 0, Decoder::start()),
        decreases n - i,
    {
        let ghost before: u16 = flags;
        flags = flags >> 1;
        assert(flags == before / 2) by (bit_vector)
            requires
                flags == before >> 1,
        ;
        let exhausted = (flags & 0x100) == 0;
        assert(exhausted == ((flags / 0x100) % 2 == 0)) by (bit_vector)
            requires
                exhausted == ((flags & 0x100) == 0),
        ;
        if exhausted {
            let c: u8 = block[i];
            flags = (c as u16) | 0xff00;
            assert(flags == 0xff00 + c) by (bit_vector)
                requires
                    flags == (c as u16) | 0xff00,
            ;
            i = i + 1;
            if i >= n {
                break ;
            }
        }
        let is_literal = (flags & 1) != 0;
        assert(is_literal == (flags % 2 == 1)) by (bit_vector)
            requires
                is_literal == ((flags & 1) != 0),
        ;
        if is_literal {
            let byte: u8 = block[i];
            proof {
                assert(base + st.output.push(byte) == (base + st.output).push(byte));
                st = st.literal(byte);
            }
            out.push(byte);
            window.set(cursor, byte);
            cursor = (cursor + 1) % DICT_SIZE;
            i = i + 1;
        } else {
            if n - i < 2 {
                break ;
            }
            let b1: u8 = block[i];
            let b2: u8 = block[i + 1];
            let from: usize = ((b1 as u16) | (((b2 as u16) & 0xF0) << 4)) as usize;
            let low: u16 = (b2 as u16) & 0x0F;
            assert(low == b2 % 16) by (bit_vector)
                requires
                    low == (b2 as u16) & 0x0F,
            ;
            let count: usize = (low + 2) as usize + 1;
            assert(from == b1 + (b2 / 16) * 256 && from < 4096) by (bit_vector)
                requires
                    from == ((b1 as u16) | (((b2 as u16) & 0xF0) << 4)) as usize,
            ;
            copy_from_window(&mut window, &mut cursor, out, from, count, Ghost(base), Ghost(st));
            proof {
                st = st.copy(from as int, count as nat);
            }
            i = i + 2;
        }
    }
}

/// Unpacks a stream of the dictionary coder.
///
/// Gives the unpacked bytes, and fails with `ArchiveError::Compression`
/// exactly where a block announces more bytes than the stream still holds.
/// An empty stream unpacks to no bytes.
pub fn decompress(compressed_data: &[u8]) -> (r: Result<Vec<u8>, ArchiveError>)
    ensures
        match r {
            Ok(v) => unpack(compressed_data@) == Some(v@),
            Err(e) => e == ArchiveError::Compression && unpack(compressed_data@) is None,
        },
{
    let mut out: Vec<u8> = Vec::new();
    let mut pos: usize = 0;
    let len: usize = compressed_data.len();
    proof {
        assert(Seq::<u8>::empty() + Seq::<u8>::empty() == Seq::<u8>::empty());
    }
    loop
        invariant
            len == compressed_data@.len(),
            pos <= len,
            unpack(compressed_data@) == prepend(out@, decode_blocks(compressed_data@, pos as int)),
        decreases len - pos,
    {
        let n: i16 = match read_be_i16(compressed_data, pos) {
            Some(n) => n,
            None => {
                proof {
                    assert(out@ + Seq::<u8>::empty() == out@);
                }
                return Ok(out);
            },
        };
        if n == 0 {
            proof {
                assert(out@ + Seq::<u8>::empty() == out@);
            }
            return Ok(out);
        }
        let body: usize = pos + 2;
        let count: usize = if n < 0 {
            (-(n as i32)) as usize
        } else {
            n as usize
        };
        if len - body < count {
            return Err(ArchiveError::Compression);
        }
        let block = slice_subrange(compressed_data, body, body + count);
        let ghost before = out@;
        let ghost rest = decode_blocks(compressed_data@, body + count);
        if n < 0 {
            out.extend_from_slice(block);
        } else {
            unpack_block_into(block, &mut out);
        }
        proof {
            let piece = out@.subrange(before.len() as int, out@.len() as int);
            assert(out@ == before + piece);
            if rest is Some {
                assert(before + (piece + rest.unwrap()) == (before + piece) + rest.unwrap());
            }
        }
        pos = body + count;
    }
}

/// The two bytes that open a block of length `n`, for `n` from -32768 to
/// 32767: `n` in two's complement, most significant byte first.
pub open spec fn block_header(n: int) -> Seq<u8> {
    let u = if n < 0 {
        n + 0x10000
    } else {
        n
    };
    seq![(u / 0x100) as u8, (u % 0x100) as u8]
}

/// A stream made of one packed block, `block`, followed by `rest`.
pub open spec fn packed_block_then(block: Seq<u8>, rest: Seq<u8>) -> Seq<u8> {
    block_header(block.len() as int) + block + rest
}

/// A stream made of one block of plain bytes, `bytes`, followed by `rest`.
pub open spec fn plain_block_then(bytes: Seq<u8>, rest: Seq<u8>) -> Seq<u8> {
    block_header(-(bytes.len() as int)) + bytes + rest
}

/// What the blocks from some position on stand for does not depend on the
/// bytes in front of that position.
pub proof fn lemma_decode_blocks_shift(prefix: Seq<u8>, rest: Seq<u8>, p: int)
    requires
        0 <= p,
    ensures
        decode_blocks(prefix + rest, prefix.len() + p) == decode_blocks(rest, p),
    decreases rest.len() - p,
{
    let whole = prefix + rest;
    let q = prefix.len() + p;
    if p + 2 <= rest.len() {
        assert(whole[q] == rest[p]);
        assert(whole[q + 1] == rest[p + 1]);
        let n = be_i16_at(rest, p);
        if n < 0 && p + 2 - n <= rest.len() {
            assert(whole.subrange(q + 2, q + 2 - n) == rest.subrange(p + 2, p + 2 - n));
            lemma_decode_blocks_shift(prefix, rest, p + 2 - n);
        } else if n > 0 && p + 2 + n <= rest.len() {
            assert(whole.subrange(q + 2, q + 2 + n) == rest.subrange(p + 2, p + 2 + n));
            lemma_decode_blocks_shift(prefix, rest, p + 2 + n);
        }
    }
}

/// A packed block unpacks to the same bytes wherever it stands in a stream:
/// its output is followed by what the rest of the stream unpacks to, and
/// nothing of the blocks decoded before or after enters into it.
pub proof fn lemma_packed_block_stands_alone(block: Seq<u8>, rest: Seq<u8>)
    requires
        0 < block.len() <= 0x7fff,
    ensures
        unpack(packed_block_then(block, rest)) == prepend(unpack_block(block), unpack(rest)),
{
    let n = block.len() as int;
    let head = block_header(n) + block;
    let input = packed_block_then(block, rest);
    assert(input == head + rest);
    assert(input[0] == block_header(n)[0]);
    assert(input[1] == block_header(n)[1]);
    assert(be_i16_at(input, 0) == n);
    assert(input.subrange(2, 2 + n) == block);
    lemma_decode_blocks_shift(head, rest, 0);
}

/// A block of plain bytes unpacks to those bytes, followed by what the rest
/// of the stream unpacks to.
pub proof fn lemma_plain_block_is_copied(bytes: Seq<u8>, rest: Seq<u8>)
    requires
        0 < bytes.len() <= 0x8000,
    ensures
        unpack(plain_block_then(bytes, rest)) == prepend(bytes, unpack(rest)),
{
    let n = -(bytes.len() as int);
    let head = block_header(n) + bytes;
    let input = plain_block_then(bytes, rest);
    assert(input == head + rest);
    assert(input[0] == block_header(n)[0]);
    assert(input[1] == block_header(n)[1]);
    assert(be_i16_at(input, 0) == n);
    assert(input.subrange(2, 2 - n) == bytes);
    lemma_decode_blocks_shift(head, rest, 0);
}

/// The same packed block fed twice in one stream gives the same output
/// twice: the window that the first copy filled does not reach the second.
pub proof fn lemma_same_block_twice(block: Seq<u8>, rest: Seq<u8>)
    requires
        0 < block.len() <= 0x7fff,
    ensures
        unpack(packed_block_then(block, packed_block_then(block, rest))) == prepend(
            unpack_block(block) + unpack_block(block),
            unpack(rest),
        ),
{
    lemma_packed_block_stands_alone(block, rest);
    lemma_packed_block_stands_alone(block, packed_block_then(block, rest));
    let once = unpack_block(block);
    if unpack(rest) is Some {
        assert(once + (once + unpack(rest).unwrap()) == (once + once) + unpack(rest).unwrap());
    }
}

/// A block of length zero ends the stream: whatever follows it is not read.
pub proof fn lemma_zero_length_ends_stream(rest: Seq<u8>)
    ensures
        unpack(block_header(0) + rest) == Some(Seq::<u8>::empty()),
{
    let input = block_header(0) + rest;
    assert(input[0] == 0 && input[1] == 0);
}

/// The coder's packing direction is not offered: archives of the directory
/// layout take new entries unpacked. Always fails with
/// `ArchiveError::Unsupported`.
pub fn compress(_data: &[u8]) -> (r: Result<Vec<u8>, ArchiveError>)
    ensures
        r == Err::<Vec<u8>, ArchiveError>(ArchiveError::Unsupported),
{
    Err(ArchiveError::Unsupported)
}

} // verus!

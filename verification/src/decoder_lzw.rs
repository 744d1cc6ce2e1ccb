//! LZW decompression: reading code-size, sub-block buffering, bit
//! unpacking of variable-width codes, and expanding codes into pixels.
use vstd::prelude::*;
use crate::constants::{LZ_BITS, LZ_MAX_CODE, NO_SUCH_CODE};
use crate::err::GifError;
use crate::file::{GifFileType, LzwState, same_except_io_lzw};
use crate::decoder::{past_blocks, lemma_past_blocks_refl, lemma_past_blocks_step, lemma_past_blocks_trans};

verus! {

/// The data bytes of the sub-blocks at the start of `input`, up to the first
/// empty block or the first block cut short.
pub open spec fn sub_block_data(input: Seq<u8>) -> Seq<u8>
    decreases input.len(),
{
    if input.len() == 0 || input[0] == 0 || input.len() < 1 + input[0] {
        Seq::empty()
    } else {
        input.subrange(1, 1 + input[0] as int) + sub_block_data(input.skip(1 + input[0] as int))
    }
}

/// The error when the compressed data runs out: `DImageDefect` when the
/// data sub-blocks at the start of `input` end with an empty one (the image
/// data ended), `DReadFailed` when they are cut short.
pub open spec fn data_end_error(input: Seq<u8>) -> GifError {
    if crate::decoder::skip_blocks_len(input) is Some { GifError::DImageDefect } else { GifError::DReadFailed }
}

/// With no data left in the sub-blocks at the start of `input`, they end with
/// an empty one exactly when `input` starts with one.
pub proof fn lemma_empty_data_end(input: Seq<u8>)
    requires
        sub_block_data(input).len() == 0,
    ensures
        (crate::decoder::skip_blocks_len(input) is Some) == (input.len() >= 1 && input[0] == 0),
{
    if input.len() >= 1 && input[0] != 0 && input.len() >= 1 + input[0] {
        assert(sub_block_data(input).len() >= input[0]);
    }
}

/// The sub-block buffer holds, at `buf[1]`, a read position into the
/// `buf[0]` bytes still to be taken from it.
pub open spec fn cursor_form(buf: Seq<u8>) -> bool {
    buf.len() == 256 && (buf[0] == 0 || (1 <= buf[1] && buf[1] as int + buf[0] as int <= 256))
}

/// The bytes still to be taken from the sub-block buffer.
pub open spec fn pending_bytes(buf: Seq<u8>) -> Seq<u8> {
    if buf[0] == 0 {
        Seq::empty()
    } else {
        buf.subrange(buf[1] as int, buf[1] as int + buf[0] as int)
    }
}

/// The bytes that the decompressor reads next: what is left of the current
/// sub-block, then the data of the sub-blocks that follow in the input.
pub open spec fn code_stream(g: GifFileType) -> Seq<u8> {
    pending_bytes(g.Private.lzw.buf@) + sub_block_data(g.input())
}

/// The shift register after appending `bytes`, eight bits each, above its
/// lowest `s` bits.
pub open spec fn fill_bits(d: u64, s: int, bytes: Seq<u8>) -> u64
    decreases bytes.len(),
{
    if bytes.len() == 0 {
        d
    } else {
        fill_bits(d | ((bytes[0] as u64) << (s as u64)), s + 8, bytes.skip(1))
    }
}

/// How many bytes must be added to a register holding `s` bits to hold `rb`.
pub open spec fn bytes_needed(s: int, rb: int) -> int {
    if s >= rb { 0 } else { (rb - s + 7) / 8 }
}

pub open spec fn pow2_bits(n: int) -> int
    decreases n,
{
    if n <= 0 { 1 } else { 2 * pow2_bits(n - 1) }
}

/// A measure of the compressed data left: the bits still to be read from
/// the input and the sub-block buffer, plus those held in the shift register.
pub open spec fn input_measure(g: GifFileType) -> int {
    8 * (g.input().len() + g.Private.lzw.buf@[0]) + g.Private.lzw.crnt_shift_state
}

/// The code table has a free entry.
pub open spec fn has_free_entry(prefix: Seq<u32>) -> bool {
    exists|i: int| 0 <= i < prefix.len() && prefix[i] == NO_SUCH_CODE as u32
}

/// The LZW state stays within the ranges the decompressor relies on; the
/// zeroed state of a fresh handle is one such state.
pub open spec fn decoder_ready(l: LzwState) -> bool {
    &&& l.wf()
    &&& 0 <= l.crnt_shift_state <= 24
    &&& 0 <= l.stack_ptr
    &&& 0 <= l.running_code <= LZ_MAX_CODE + 2
    &&& 0 <= l.clear_code <= 256
    &&& 0 <= l.eof_code <= 257
    &&& 0 <= l.bits_per_pixel <= 8
    &&& 0 <= l.running_bits <= LZ_BITS
    &&& 0 <= l.max_code1 <= pow2_bits(l.running_bits as int)
    &&& has_free_entry(l.prefix@) ==> l.running_code >= 1
}

/// The running code `rc`, the code width `rb` and its limit `max` after one
/// more code has been read: the running code counts up to `LZ_MAX_CODE + 2`,
/// and the width grows by a bit, up to `LZ_BITS`, when it passes the limit.
pub open spec fn running_after(rc: i32, rb: i32, max: i32) -> (i32, i32, i32) {
    if rc < LZ_MAX_CODE + 2 {
        let rc1 = rc + 1;
        if rc1 > max && rb < LZ_BITS {
            (rc1 as i32, (rb + 1) as i32, (max * 2) as i32)
        } else {
            (rc1 as i32, rb, max)
        }
    } else {
        (rc, rb, max)
    }
}

/// The running code and code width of `l` after one more code has been read.
pub open spec fn next_running(l: LzwState) -> (i32, i32, i32) {
    running_after(l.running_code, l.running_bits, l.max_code1)
}

/// The next byte of the compressed data, taken from the current sub-block or,
/// when that is used up, from the next sub-block read from the input.
#[verifier::rlimit(40)]
fn dgif_buffered_input(gif: &mut GifFileType) -> (r: Result<u8, GifError>)
    requires
        old(gif).wf(),
    ensures
        final(gif).wf(),
        same_except_io_lzw(*final(gif), *old(gif)),
        final(gif).Private.lzw == (LzwState { buf: final(gif).Private.lzw.buf, ..old(gif).Private.lzw }),
        final(gif).readable() == old(gif).readable(),
        final(gif).output() == old(gif).output(),
        r is Err ==> (r == Err::<u8, GifError>(GifError::DImageDefect) || r == Err::<u8, GifError>(GifError::DReadFailed)),
        final(gif).input().len() <= old(gif).input().len(),
        r is Ok ==> final(gif).input().len() + final(gif).Private.lzw.buf@[0] < old(gif).input().len() + old(gif).Private.lzw.buf@[0],
        r is Ok ==> past_blocks(old(gif).input(), final(gif).input()),
        old(gif).Private.lzw.buf@[0] != 0 ==> ({
            let b = old(gif).Private.lzw.buf@;
            &&& r == Ok::<u8, GifError>(b[b[1] as int])
            &&& final(gif).Private.lzw.buf@ == b.update(1, (if b[1] == 255 { 0u8 } else { (b[1] + 1) as u8 })).update(0, (b[0] - 1) as u8)
            &&& final(gif).input() == old(gif).input()
        }),
        old(gif).Private.lzw.buf@[0] == 0 ==> ({
            let inp = old(gif).input();
            &&& r is Ok <==> (old(gif).readable() && inp.len() >= 1 && inp[0] != 0 && inp.len() >= 1 + inp[0])
            &&& r is Err ==> (r == Err::<u8, GifError>(GifError::DImageDefect) <==> (old(gif).readable() && inp.len() >= 1 && inp[0] == 0))
            &&& r matches Ok(v) ==> {
                &&& v == inp[1]
                &&& final(gif).input() == inp.skip(1 + inp[0] as int)
                &&& final(gif).Private.lzw.buf@[0] == inp[0] - 1
                &&& final(gif).Private.lzw.buf@[1] == 2
                &&& forall|k: int| 2 <= k <= inp[0] ==> #[trigger] final(gif).Private.lzw.buf@[k] == inp[k]
                &&& forall|k: int| inp[0] < k < 256 ==> #[trigger] final(gif).Private.lzw.buf@[k] == old(gif).Private.lzw.buf@[k]
            }
        }),
        cursor_form(old(gif).Private.lzw.buf@) ==> {
            &&& r is Ok <==> code_stream(*old(gif)).len() > 0
            &&& r matches Ok(v) ==> v == code_stream(*old(gif))[0] && code_stream(*final(gif))
                == code_stream(*old(gif)).skip(1) && cursor_form(final(gif).Private.lzw.buf@)
        },
{
    let ghost g0 = *gif;
    if gif.Private.lzw.buf[0] == 0 {
        let len = match gif.read_byte() {
            Ok(b) => b,
            Err(e) => return Err(e),
        };
        if len == 0 {
            gif.Private.lzw.buf.set(0, 0);
            return Err(GifError::DImageDefect);
        }
        let ghost g1 = *gif;
        let mut block = crate::file::filled_u8(len as usize, 0);
        match gif.read_exact(block.as_mut_slice()) {
            Ok(()) => {},
            Err(e) => return Err(e),
        }
        let ghost g2 = *gif;
        let next = block[0];
        let mut k: usize = 1;
        while k < len as usize
            invariant
                1 <= k <= len,
                block@ == g1.input().take(len as int),
                block@.len() == len,
                gif.Private.io == g2.Private.io,
                gif.Private.lzw.buf@.len() == 256,
                gif.Private.lzw.buf@[0] == 0,
                forall|q: int| 2 <= q <= k ==> #[trigger] gif.Private.lzw.buf@[q] == block@[q - 1],
                forall|q: int| k < q < 256 ==> #[trigger] gif.Private.lzw.buf@[q] == g0.Private.lzw.buf@[q],
                same_except_io_lzw(*gif, g0),
                gif.Private.lzw == (LzwState { buf: gif.Private.lzw.buf, ..g0.Private.lzw }),
                gif.wf(),
            decreases len - k,
        {
            gif.Private.lzw.buf.set(k + 1, block[k]);
            k = k + 1;
        }
        gif.Private.lzw.buf.set(1, 2);
        gif.Private.lzw.buf.set(0, len - 1);
        proof {
            let inp = g0.input();
            assert(g1.input() == inp.skip(1));
            assert(inp[0] == len);
            assert(g2.input() == g1.input().skip(len as int));
            assert(gif.input() =~= inp.skip(1 + len as int));
            lemma_past_blocks_step(inp);
            let nb = gif.Private.lzw.buf@;
            assert forall|q: int| 2 <= q <= len implies #[trigger] nb[q] == inp[q] by {
                assert(nb[q] == block@[q - 1]);
            }
            if cursor_form(g0.Private.lzw.buf@) {
                let sd = sub_block_data(inp);
                assert(pending_bytes(g0.Private.lzw.buf@) =~= Seq::<u8>::empty());
                assert(code_stream(g0) =~= sd);
                assert(sd == inp.subrange(1, 1 + len as int) + sub_block_data(inp.skip(1 + len as int)));
                assert(pending_bytes(nb) =~= inp.subrange(2, 1 + len as int));
                assert(code_stream(*gif) =~= sd.skip(1));
            }
        }
        Ok(next)
    } else {
        let pos = gif.Private.lzw.buf[1];
        let next = gif.Private.lzw.buf[pos as usize];
        let npos: u8 = if pos == 255 { 0 } else { pos + 1 };
        gif.Private.lzw.buf.set(1, npos);
        let rem = gif.Private.lzw.buf[0];
        gif.Private.lzw.buf.set(0, rem - 1);
        proof {
            lemma_past_blocks_refl(g0.input());
            let b = g0.Private.lzw.buf@;
            if cursor_form(b) {
                let nb = gif.Private.lzw.buf@;
                assert(pending_bytes(nb) =~= pending_bytes(b).skip(1));
                assert(code_stream(*gif) =~= code_stream(g0).skip(1));
            }
        }
        Ok(next)
    }
}

proof fn lemma_fill_bits_push(d: u64, s: int, bytes: Seq<u8>, b: u8)
    ensures
        fill_bits(d, s, bytes.push(b)) == fill_bits(d, s, bytes) | ((b as u64) << ((s + 8 * bytes.len()) as u64)),
    decreases bytes.len(),
{
    if bytes.len() == 0 {
        assert(bytes.push(b).skip(1) =~= Seq::<u8>::empty());
        assert(bytes.push(b)[0] == b);
        assert(fill_bits(d, s, bytes.push(b)) == fill_bits(d | ((b as u64) << (s as u64)), s + 8, Seq::<u8>::empty()));
    } else {
        let d1 = d | ((bytes[0] as u64) << (s as u64));
        assert(bytes.push(b).skip(1) =~= bytes.skip(1).push(b));
        assert(bytes.push(b)[0] == bytes[0]);
        lemma_fill_bits_push(d1, s + 8, bytes.skip(1), b);
        assert(fill_bits(d, s, bytes.push(b)) == fill_bits(d1, s + 8, bytes.skip(1).push(b)));
        assert(fill_bits(d, s, bytes) == fill_bits(d1, s + 8, bytes.skip(1)));
    }
}

/// Read the next code, `running_bits` wide, from the compressed data, and
/// advance the running code, widening codes when the table outgrows them.
pub fn dgif_decompress_input(gif: &mut GifFileType, code: &mut i32) -> (r: Result<(), GifError>)
    requires
        old(gif).readable(),
        old(gif).wf(),
        decoder_ready(old(gif).Private.lzw),
    ensures
        final(gif).wf(),
        decoder_ready(final(gif).Private.lzw),
        same_except_io_lzw(*final(gif), *old(gif)),
        final(gif).readable() == old(gif).readable(),
        final(gif).output() == old(gif).output(),
        final(gif).Private.lzw.prefix == old(gif).Private.lzw.prefix,
        final(gif).Private.lzw.suffix == old(gif).Private.lzw.suffix,
        final(gif).Private.lzw.stack == old(gif).Private.lzw.stack,
        final(gif).Private.lzw.stack_ptr == old(gif).Private.lzw.stack_ptr,
        final(gif).Private.lzw.last_code == old(gif).Private.lzw.last_code,
        final(gif).Private.lzw.clear_code == old(gif).Private.lzw.clear_code,
        final(gif).Private.lzw.eof_code == old(gif).Private.lzw.eof_code,
        final(gif).Private.lzw.bits_per_pixel == old(gif).Private.lzw.bits_per_pixel,
        r is Err ==> (r == Err::<(), GifError>(GifError::DImageDefect) || r == Err::<(), GifError>(GifError::DReadFailed)),
        r is Ok ==> input_measure(*final(gif)) <= input_measure(*old(gif)),
        r is Ok ==> past_blocks(old(gif).input(), final(gif).input()),
        final(gif).input().len() <= old(gif).input().len(),
        r is Ok && old(gif).Private.lzw.running_bits >= 1 ==> input_measure(*final(gif)) < input_measure(*old(gif)),
        r is Ok ==> 0 <= *final(code) < pow2_bits(old(gif).Private.lzw.running_bits as int),
        r is Ok ==> (final(gif).Private.lzw.running_code, final(gif).Private.lzw.running_bits,
            final(gif).Private.lzw.max_code1) == next_running(old(gif).Private.lzw),
        cursor_form(old(gif).Private.lzw.buf@) ==> ({
            let l = old(gif).Private.lzw;
            let rb = l.running_bits as int;
            let k = bytes_needed(l.crnt_shift_state as int, rb);
            let st = code_stream(*old(gif));
            let f = fill_bits(l.crnt_shift_dword, l.crnt_shift_state as int, st.take(k));
            &&& r is Ok <==> st.len() >= k
            &&& r is Err ==> r == Err::<(), GifError>(data_end_error(old(gif).input()))
            &&& r is Ok ==> {
                &&& *final(code) as u64 == f & ((1u64 << (rb as u64)) - 1) as u64
                &&& final(gif).Private.lzw.crnt_shift_dword == f >> (rb as u64)
                &&& final(gif).Private.lzw.crnt_shift_state == l.crnt_shift_state + 8 * k - rb
                &&& code_stream(*final(gif)) == st.skip(k)
                &&& cursor_form(final(gif).Private.lzw.buf@)
            }
        }),
{
    let ghost g0 = *gif;
    let running_bits = gif.Private.lzw.running_bits;
    if running_bits > LZ_BITS {
        return Err(GifError::DImageDefect);
    }
    let ghost s0 = g0.Private.lzw.crnt_shift_state as int;
    let ghost d0 = g0.Private.lzw.crnt_shift_dword;
    let ghost mut j: int = 0;
    proof {
        lemma_past_blocks_refl(g0.input());
    }
    while gif.Private.lzw.crnt_shift_state < running_bits
        invariant
            gif.wf(),
            g0 == *old(gif),
            g0.readable(),
            s0 == g0.Private.lzw.crnt_shift_state as int,
            d0 == g0.Private.lzw.crnt_shift_dword,
            decoder_ready(g0.Private.lzw),
            same_except_io_lzw(*gif, g0),
            gif.Private.lzw == (LzwState {
                buf: gif.Private.lzw.buf,
                crnt_shift_dword: gif.Private.lzw.crnt_shift_dword,
                crnt_shift_state: gif.Private.lzw.crnt_shift_state,
                ..g0.Private.lzw
            }),
            gif.readable() == g0.readable(),
            gif.output() == g0.output(),
            running_bits == g0.Private.lzw.running_bits,
            0 <= running_bits <= LZ_BITS,
            0 <= s0 <= 24,
            j >= 0,
            gif.Private.lzw.crnt_shift_state == s0 + 8 * j,
            j > 0 ==> gif.Private.lzw.crnt_shift_state < running_bits + 8,
            gif.input().len() + gif.Private.lzw.buf@[0] <= g0.input().len() + g0.Private.lzw.buf@[0] - j,
            gif.input().len() <= g0.input().len(),
            past_blocks(g0.input(), gif.input()),
            j <= bytes_needed(s0, running_bits as int),
            cursor_form(g0.Private.lzw.buf@) ==> {
                &&& cursor_form(gif.Private.lzw.buf@)
                &&& j <= code_stream(g0).len()
                &&& code_stream(*gif) == code_stream(g0).skip(j)
                &&& gif.Private.lzw.crnt_shift_dword == fill_bits(d0, s0, code_stream(g0).take(j))
            },
        decreases bytes_needed(s0, running_bits as int) - j,
    {
        let ghost before = *gif;
        let next_byte = match dgif_buffered_input(gif) {
            Ok(b) => b,
            Err(e) => {
                proof {
                    assert(before.Private.lzw.stack_ptr == g0.Private.lzw.stack_ptr);
                    assert(gif.Private.lzw.stack_ptr == before.Private.lzw.stack_ptr);
                    assert(same_except_io_lzw(*gif, before));
                    crate::file::lemma_same_except_io_lzw_trans(*gif, before, g0);
                    assert(decoder_ready(gif.Private.lzw));
                    assert(cursor_form(g0.Private.lzw.buf@) ==> code_stream(g0).len() < bytes_needed(s0, running_bits as int)
                        && e == data_end_error(g0.input())) by {
                        if cursor_form(g0.Private.lzw.buf@) {
                            assert(code_stream(before).len() == 0);
                            let bb = before.Private.lzw.buf@;
                            if bb[0] != 0 {
                                assert(pending_bytes(bb).len() == bb[0]);
                            }
                            assert(sub_block_data(before.input()).len() == 0);
                            lemma_empty_data_end(before.input());
                            assert(code_stream(g0).len() == j);
                            assert(s0 + 8 * j < running_bits);
                        }
                    }
                }
                return Err(e);
            },
        };
        proof {
            lemma_past_blocks_trans(g0.input(), before.input(), gif.input());
        }
        let sh = gif.Private.lzw.crnt_shift_state;
        gif.Private.lzw.crnt_shift_dword = gif.Private.lzw.crnt_shift_dword | ((next_byte as u64) << (sh as u64));
        gif.Private.lzw.crnt_shift_state = sh + 8;
        proof {
            if cursor_form(g0.Private.lzw.buf@) {
                let st = code_stream(g0);
                assert(st.skip(j)[0] == st[j]);
                assert(st.take(j + 1) =~= st.take(j).push(st[j]));
                lemma_fill_bits_push(d0, s0, st.take(j), st[j]);
                assert(st.skip(j).skip(1) =~= st.skip(j + 1));
            }
            j = j + 1;
        }
    }
    proof {
        assert(j == bytes_needed(s0, running_bits as int));
    }
    proof {
        assert(1 <= 1u64 << (running_bits as u64) <= 4096) by (bit_vector)
            requires 0 <= running_bits <= 12;
        lemma_shl_is_pow2(running_bits);
    }
    let mask: u64 = (1u64 << (running_bits as u64)) - 1;
    let dword = gif.Private.lzw.crnt_shift_dword;
    assert((dword & mask) <= mask) by (bit_vector);
    *code = (dword & mask) as i32;
    gif.Private.lzw.crnt_shift_dword = dword >> (running_bits as u64);
    gif.Private.lzw.crnt_shift_state = gif.Private.lzw.crnt_shift_state - running_bits;
    if gif.Private.lzw.running_code < LZ_MAX_CODE as i32 + 2 {
        gif.Private.lzw.running_code = gif.Private.lzw.running_code + 1;
        if gif.Private.lzw.running_code > gif.Private.lzw.max_code1 && running_bits < LZ_BITS {
            proof {
                lemma_pow2_bits_bound(running_bits as int + 1);
            }
            gif.Private.lzw.max_code1 = gif.Private.lzw.max_code1 * 2;
            gif.Private.lzw.running_bits = running_bits + 1;
        }
    }
    Ok(())
}

pub(crate) proof fn lemma_shl_is_pow2(rb: i32)
    requires
        0 <= rb <= 12,
    ensures
        (1u64 << (rb as u64)) as int == pow2_bits(rb as int),
    decreases rb,
{
    let r = rb as u64;
    assert((r == 0 ==> (1u64 << r) == 1) && (1 <= r <= 12 ==> (1u64 << r) == 2 * (1u64 << ((r - 1) as u64))))
        by (bit_vector);
    if rb > 0 {
        lemma_shl_is_pow2((rb - 1) as i32);
        assert(((rb - 1) as i32) as u64 == (r - 1) as u64);
    }
}

/// The root of the prefix chain from `code`: follow prefixes while the code
/// is above `clear`, for at most `LZ_MAX_CODE + 1` steps; a code beyond
/// `LZ_MAX_CODE` gives `NO_SUCH_CODE`.
pub open spec fn spec_prefix_char(prefix: Seq<u32>, code: int, clear: int, steps: int) -> int
    decreases LZ_MAX_CODE + 1 - steps,
{
    if code > clear && steps <= LZ_MAX_CODE {
        if code > LZ_MAX_CODE {
            NO_SUCH_CODE as int
        } else {
            spec_prefix_char(prefix, prefix[code] as i32 as int, clear, steps + 1)
        }
    } else {
        code
    }
}

/// Trace the prefix chain of `code` to its root pixel.
fn dgif_get_prefix_char(prefix: &Vec<u32>, start: i32, clear_code: i32) -> (r: i32)
    requires
        prefix@.len() == LZ_MAX_CODE + 1,
        clear_code >= 0,
    ensures
        r == spec_prefix_char(prefix@, start as int, clear_code as int, 0),
{
    let mut code = start;
    let mut i: usize = 0;
    while code > clear_code && i <= LZ_MAX_CODE
        invariant
            prefix@.len() == LZ_MAX_CODE + 1,
            clear_code >= 0,
            i <= LZ_MAX_CODE + 1,
            spec_prefix_char(prefix@, code as int, clear_code as int, i as int)
                == spec_prefix_char(prefix@, start as int, clear_code as int, 0),
        decreases LZ_MAX_CODE + 1 - i,
    {
        if code > LZ_MAX_CODE as i32 {
            return NO_SUCH_CODE;
        }
        let ghost c0 = code;
        code = prefix[code as usize] as i32;
        assert(spec_prefix_char(prefix@, c0 as int, clear_code as int, i as int)
            == spec_prefix_char(prefix@, code as int, clear_code as int, i + 1));
        i = i + 1;
    }
    code
}

/// `s` put before the pixels of `o`, when there are any.
pub open spec fn opt_prepend(s: Seq<u8>, o: Option<Seq<u8>>) -> Option<Seq<u8>> {
    match o {
        Some(t) => Some(s + t),
        None => None,
    }
}

proof fn lemma_opt_prepend_assoc(a: Seq<u8>, b: Seq<u8>, o: Option<Seq<u8>>)
    ensures
        opt_prepend(a, opt_prepend(b, o)) == opt_prepend(a + b, o),
{
    if let Some(t) = o {
        assert(a + (b + t) =~= (a + b) + t);
    }
}

/// Push the pixels of the code `c`, not below `clear`, on the empty stack
/// (`code_pushes`), and give back how many there are.
fn push_code(lzw: &mut LzwState, c: i32, last_code: i32) -> (r: Result<i32, GifError>)
    requires
        old(lzw).wf(),
        0 <= old(lzw).clear_code <= c <= LZ_MAX_CODE,
        old(lzw).prefix@[c as int] == NO_SUCH_CODE as u32 ==> 2 <= old(lzw).running_code <= LZ_MAX_CODE + 2,
    ensures
        final(lzw).wf(),
        *final(lzw) == (LzwState { stack: final(lzw).stack, suffix: final(lzw).suffix, ..*old(lzw) }),
        match code_pushes(old(lzw).prefix@, old(lzw).suffix@, old(lzw).running_code, last_code, old(lzw).clear_code, c) {
            None => r == Err::<i32, GifError>(GifError::DImageDefect),
            Some((s1, q)) => {
                &&& r == Ok::<i32, GifError>(q.len() as i32)
                &&& 1 <= q.len() <= LZ_MAX_CODE
                &&& final(lzw).suffix@ == s1
                &&& final(lzw).stack@.subrange(0, q.len() as int) == q
            },
        },
{
    let ghost l0 = *lzw;
    let clear_code = lzw.clear_code;
    let mut stack_ptr: i32 = 0;
    let crnt_prefix: i32;
    if lzw.prefix[c as usize] == NO_SUCH_CODE as u32 {
        crnt_prefix = last_code;
        let rc_idx = lzw.running_code - 2;
        let trace_from = if c == lzw.running_code - 2 { last_code } else { c };
        let pc = dgif_get_prefix_char(&lzw.prefix, trace_from, clear_code);
        lzw.suffix.set(rc_idx as usize, pc as u8);
        lzw.stack.set(0, pc as u8);
        stack_ptr = 1;
    } else {
        crnt_prefix = c;
    }
    let ghost sp0 = stack_ptr;
    let ghost l1 = *lzw;
    let mut cp = crnt_prefix;
    assert(lzw.stack@.subrange(sp0 as int, stack_ptr as int) =~= Seq::<u8>::empty());
    assert(opt_prepend(Seq::<u8>::empty(), chain_pushes(l1.prefix@, l1.suffix@, clear_code, cp, LZ_MAX_CODE - stack_ptr))
        == chain_pushes(l1.prefix@, l1.suffix@, clear_code, cp, LZ_MAX_CODE - stack_ptr)) by {
        if let Some(t) = chain_pushes(l1.prefix@, l1.suffix@, clear_code, cp, LZ_MAX_CODE - stack_ptr) {
            assert(Seq::<u8>::empty() + t =~= t);
        }
    }
    while (stack_ptr as usize) < LZ_MAX_CODE && cp > clear_code && cp <= LZ_MAX_CODE as i32
        invariant
            lzw.wf(),
            *lzw == (LzwState { stack: lzw.stack, ..l1 }),
            0 <= sp0 <= 1,
            sp0 <= stack_ptr <= LZ_MAX_CODE,
            0 <= clear_code == l1.clear_code,
            lzw.stack@.subrange(0, sp0 as int) == l1.stack@.subrange(0, sp0 as int),
            chain_pushes(l1.prefix@, l1.suffix@, clear_code, crnt_prefix, LZ_MAX_CODE - sp0)
                == opt_prepend(lzw.stack@.subrange(sp0 as int, stack_ptr as int),
                    chain_pushes(l1.prefix@, l1.suffix@, clear_code, cp, LZ_MAX_CODE - stack_ptr)),
        decreases LZ_MAX_CODE - stack_ptr,
    {
        let ghost st0 = lzw.stack@;
        let sfx = lzw.suffix[cp as usize];
        lzw.stack.set(stack_ptr as usize, sfx);
        let ghost cp0 = cp;
        stack_ptr = stack_ptr + 1;
        cp = lzw.prefix[cp as usize] as i32;
        proof {
            assert(lzw.stack@.subrange(sp0 as int, stack_ptr as int)
                =~= st0.subrange(sp0 as int, stack_ptr - 1) + seq![sfx]);
            assert(lzw.stack@.subrange(0, sp0 as int) =~= st0.subrange(0, sp0 as int));
            lemma_opt_prepend_assoc(st0.subrange(sp0 as int, stack_ptr - 1), seq![sfx],
                chain_pushes(l1.prefix@, l1.suffix@, clear_code, cp, LZ_MAX_CODE - stack_ptr));
        }
    }
    if stack_ptr as usize >= LZ_MAX_CODE || cp > LZ_MAX_CODE as i32 {
        return Err(GifError::DImageDefect);
    }
    let ghost st1 = lzw.stack@;
    lzw.stack.set(stack_ptr as usize, cp as u8);
    stack_ptr = stack_ptr + 1;
    proof {
        assert(lzw.stack@.subrange(sp0 as int, stack_ptr as int)
            =~= st1.subrange(sp0 as int, stack_ptr - 1) + seq![cp as u8]);
        assert(lzw.stack@.subrange(0, sp0 as int) =~= st1.subrange(0, sp0 as int));
        if sp0 == 1 {
            assert(lzw.stack@.subrange(0, stack_ptr as int)
                =~= lzw.stack@.subrange(0, 1) + lzw.stack@.subrange(1, stack_ptr as int));
        }
    }
    Ok(stack_ptr)
}

/// Give the table entry under construction its prefix and suffix after the
/// code `c` that followed `last_code` (`table_add`).
fn add_table_entry(lzw: &mut LzwState, c: i32, last_code: i32)
    requires
        old(lzw).wf(),
        0 <= old(lzw).clear_code,
        0 <= old(lzw).running_code <= LZ_MAX_CODE + 2,
    ensures
        final(lzw).wf(),
        *final(lzw) == (LzwState { prefix: final(lzw).prefix, suffix: final(lzw).suffix, ..*old(lzw) }),
        (final(lzw).prefix@, final(lzw).suffix@)
            == table_add(old(lzw).prefix@, old(lzw).suffix@, old(lzw).running_code, last_code, old(lzw).clear_code, c),
{
    let running_code = lzw.running_code;
    let rc_idx = running_code - 2;
    if last_code != NO_SUCH_CODE && rc_idx >= 0 && (rc_idx as usize) < LZ_MAX_CODE + 1
        && lzw.prefix[rc_idx as usize] == NO_SUCH_CODE as u32
    {
        lzw.prefix.set(rc_idx as usize, last_code as u32);
        let trace_from = if c == running_code - 2 { last_code } else { c };
        let pc = dgif_get_prefix_char(&lzw.prefix, trace_from, lzw.clear_code);
        lzw.suffix.set(rc_idx as usize, pc as u8);
    }
}

/// The state kept by the decompressor between lines: the decoder's ranges,
/// with leftover pixels on the stack.
pub open spec fn line_ready(l: LzwState) -> bool {
    &&& decoder_ready(l)
    &&& l.stack_ptr <= LZ_MAX_CODE
}

/// The pixels on the stack below `sp`, in the order in which they go out:
/// the top of the stack first.
pub open spec fn stack_pixels(stack: Seq<u8>, sp: int) -> Seq<u8> {
    Seq::new(sp as nat, |i: int| stack[sp - 1 - i])
}

/// What the decompressor's output depends on and changes: the compressed
/// bytes still to come, the bit register and the count of bits in it, the
/// running code, the code width and its limit, the code table, the code
/// read before, and the pixels decoded but not yet handed out.
pub struct DecView {
    pub stream: Seq<u8>,
    pub dword: u64,
    pub nbits: i32,
    pub rc: i32,
    pub rb: i32,
    pub max: i32,
    pub prefix: Seq<u32>,
    pub suffix: Seq<u8>,
    pub last: i32,
    pub pending: Seq<u8>,
}

/// The decompressor's view of `g`, with `sp` pixels on the stack and `last`
/// the code read before.
pub open spec fn dec_view_at(g: GifFileType, sp: int, last: i32) -> DecView {
    let l = g.Private.lzw;
    DecView {
        stream: code_stream(g),
        dword: l.crnt_shift_dword,
        nbits: l.crnt_shift_state,
        rc: l.running_code,
        rb: l.running_bits,
        max: l.max_code1,
        prefix: l.prefix@,
        suffix: l.suffix@,
        last: last,
        pending: stack_pixels(l.stack@, sp),
    }
}

pub open spec fn dec_view(g: GifFileType) -> DecView {
    dec_view_at(g, g.Private.lzw.stack_ptr as int, g.Private.lzw.last_code)
}

/// Reading the next code, `rb` bits wide and lowest bits first, from the
/// bit register topped up from the compressed bytes; `None` when the bytes
/// run out first.
pub open spec fn read_code(v: DecView) -> Option<(DecView, i32)> {
    let rb = v.rb as int;
    let k = bytes_needed(v.nbits as int, rb);
    if v.stream.len() < k {
        None
    } else {
        let f = fill_bits(v.dword, v.nbits as int, v.stream.take(k));
        let code = (f & ((1u64 << (rb as u64)) - 1) as u64) as i32;
        let (rc, rb1, max) = running_after(v.rc, v.rb, v.max);
        Some((DecView {
            stream: v.stream.skip(k),
            dword: f >> (rb as u64),
            nbits: (v.nbits + 8 * k - rb) as i32,
            rc: rc,
            rb: rb1,
            max: max,
            ..v
        }, code))
    }
}

/// The pixels pushed on the stack for the code `cp`, while `room` places
/// are left: the suffixes along its prefix chain, then the root pixel where
/// the chain reaches a code not above `clear`. `None` when the stack fills
/// up or the chain leaves the table.
pub open spec fn chain_pushes(prefix: Seq<u32>, suffix: Seq<u8>, clear: i32, cp: i32, room: int) -> Option<Seq<u8>>
    decreases room,
{
    if room <= 0 {
        None
    } else if clear < cp <= LZ_MAX_CODE {
        match chain_pushes(prefix, suffix, clear, prefix[cp as int] as i32, room - 1) {
            Some(t) => Some(seq![suffix[cp as int]] + t),
            None => None,
        }
    } else if cp > LZ_MAX_CODE {
        None
    } else {
        Some(seq![cp as u8])
    }
}

/// The suffix table after the code `c` is expanded, and the pixels pushed
/// on the empty stack for it, first pushed first. A code below `clear` is
/// its own pixel. A code with a table entry is expanded along its prefix
/// chain. A code without one stands for the string of the code before,
/// `last`, extended by its own first pixel: that pixel goes first, and it
/// becomes the suffix of the entry under construction, `rc - 2`. `None`
/// when the expansion overflows the stack or leaves the table.
pub open spec fn code_pushes(prefix: Seq<u32>, suffix: Seq<u8>, rc: i32, last: i32, clear: i32, c: i32) -> Option<(Seq<u8>, Seq<u8>)> {
    let rc2 = rc - 2;
    let tf = if c == rc2 { last } else { c };
    if c < clear {
        Some((suffix, seq![c as u8]))
    } else if prefix[c as int] == NO_SUCH_CODE as u32 {
        let pc = spec_prefix_char(prefix, tf as int, clear as int, 0) as u8;
        let s1 = suffix.update(rc2 as int, pc);
        match chain_pushes(prefix, s1, clear, last, LZ_MAX_CODE - 1) {
            Some(t) => Some((s1, seq![pc] + t)),
            None => None,
        }
    } else {
        match chain_pushes(prefix, suffix, clear, c, LZ_MAX_CODE as int) {
            Some(t) => Some((suffix, t)),
            None => None,
        }
    }
}

/// The code table after the code `c` that followed `last`: when there was
/// a code before and the entry under construction, `rc - 2`, is free, it
/// gets `last` as its prefix and the first pixel of the new string as its
/// suffix.
pub open spec fn table_add(prefix: Seq<u32>, suffix: Seq<u8>, rc: i32, last: i32, clear: i32, c: i32) -> (Seq<u32>, Seq<u8>) {
    let rc2 = rc - 2;
    let tf = if c == rc2 { last } else { c };
    if last != NO_SUCH_CODE && 0 <= rc2 <= LZ_MAX_CODE && prefix[rc2 as int] == NO_SUCH_CODE as u32 {
        let p2 = prefix.update(rc2 as int, last as u32);
        (p2, suffix.update(rc2 as int, spec_prefix_char(p2, tf as int, clear as int, 0) as u8))
    } else {
        (prefix, suffix)
    }
}

/// What the code `c`, just read, does. The end code stops decompressing
/// (`DEofTooSoon`); the clear code empties the table and resets the code
/// width. Another code is expanded (`code_pushes`; `DImageDefect` when that
/// fails), the table gains an entry (`table_add`), and the code's pixels
/// are left pending.
pub open spec fn dec_code(v: DecView, clear: i32, eof: i32, bpp: i32, c: i32) -> Result<DecView, GifError> {
    if c == eof {
        Err(GifError::DEofTooSoon)
    } else if c == clear {
        Ok(DecView {
            prefix: Seq::new((LZ_MAX_CODE + 1) as nat, |i: int| NO_SUCH_CODE as u32),
            rc: (eof + 1) as i32,
            rb: (bpp + 1) as i32,
            max: pow2_bits(bpp + 1) as i32,
            last: NO_SUCH_CODE,
            ..v
        })
    } else {
        match code_pushes(v.prefix, v.suffix, v.rc, v.last, clear, c) {
            None => Err(GifError::DImageDefect),
            Some((s1, q)) => {
                let (p2, s2) = table_add(v.prefix, s1, v.rc, v.last, clear, c);
                Ok(DecView { prefix: p2, suffix: s2, last: c, pending: q.reverse(), ..v })
            },
        }
    }
}

/// A code below the clear code is a literal: decoding it gives exactly one
/// pixel, whose value is the code itself, whatever the code table holds.
pub proof fn lemma_literal_code(v: DecView, clear: i32, eof: i32, bpp: i32, c: i32)
    requires
        0 <= c < clear <= 256,
        eof == clear + 1,
    ensures
        dec_code(v, clear, eof, bpp, c) is Ok,
        dec_code(v, clear, eof, bpp, c)->Ok_0.pending.len() == 1,
        dec_code(v, clear, eof, bpp, c)->Ok_0.pending[0] as int == c,
{
    let (s1, q) = code_pushes(v.prefix, v.suffix, v.rc, v.last, clear, c).unwrap();
    assert(q.reverse() =~= q);
}

/// Decompressing a pixel, none pending, from a view whose next code is a
/// literal gives that code as the pixel.
pub proof fn lemma_literal_pixel(w: DecView, w1: DecView, clear: i32, eof: i32, bpp: i32, c: i32)
    requires
        0 <= w.rb,
        0 <= bpp <= 8,
        w.pending.len() == 0,
        read_code(w) == Some((w1, c)),
        0 <= c < clear <= 256,
        eof == clear + 1,
    ensures
        dec_codes(w, clear, eof, bpp, 1).2 == DecEnd::Done,
        dec_codes(w, clear, eof, bpp, 1).1.len() == 1,
        dec_codes(w, clear, eof, bpp, 1).1[0] as int == c,
{
    lemma_literal_code(w1, clear, eof, bpp, c);
    let w2 = dec_code(w1, clear, eof, bpp, c)->Ok_0;
    lemma_dec_code_progress(w, w1, w2, clear, eof, bpp, c);
    let wn = DecView { pending: w2.pending.skip(1), ..w2 };
    assert(dec_codes(wn, clear, eof, bpp, 0) == (wn, Seq::<u8>::empty(), DecEnd::Done));
    assert(w2.pending.take(1) + Seq::<u8>::empty() =~= w2.pending);
}

/// How decompressing stops: with every pixel asked for, at the end code, at
/// a code that cannot be expanded, or when the compressed bytes run out.
pub enum DecEnd {
    Done,
    EndCode,
    Defect,
    ShortData,
}

/// The pushes for a code, when there are any, are at least one pixel.
pub proof fn lemma_chain_pushes_nonempty(prefix: Seq<u32>, suffix: Seq<u8>, clear: i32, cp: i32, room: int)
    ensures
        chain_pushes(prefix, suffix, clear, cp, room) matches Some(t) ==> t.len() >= 1,
{
}

/// Each code read takes its width in bits from the compressed data, and a
/// code other than the clear code leaves pixels pending; the clear code
/// makes codes at least a bit wide.
pub proof fn lemma_dec_code_progress(v: DecView, v1: DecView, v2: DecView, clear: i32, eof: i32, bpp: i32, c: i32)
    requires
        0 <= v.rb,
        0 <= bpp <= 8,
        read_code(v) == Some((v1, c)),
        dec_code(v1, clear, eof, bpp, c) == Ok::<DecView, GifError>(v2),
    ensures
        0 <= v2.rb,
        v2.stream == v1.stream,
        v2.nbits == v1.nbits,
        8 * v1.stream.len() + v1.nbits == 8 * v.stream.len() + v.nbits - v.rb,
        0 <= 8 * v1.stream.len() + v1.nbits,
        c == clear ==> v2.rb >= 1,
        c != clear ==> v2.pending.len() >= 1,
{
    let k = bytes_needed(v.nbits as int, v.rb as int);
    assert(v1.stream.len() == v.stream.len() - k);
    if c != clear {
        let tf = if c == v1.rc - 2 { v1.last } else { c };
        if c >= clear {
            if v1.prefix[c as int] == NO_SUCH_CODE as u32 {
                let pc = spec_prefix_char(v1.prefix, tf as int, clear as int, 0) as u8;
                lemma_chain_pushes_nonempty(v1.prefix, v1.suffix.update(v1.rc - 2, pc), clear, v1.last, LZ_MAX_CODE - 1);
            } else {
                lemma_chain_pushes_nonempty(v1.prefix, v1.suffix, clear, c, LZ_MAX_CODE as int);
            }
        }
        let (s1, q) = code_pushes(v1.prefix, v1.suffix, v1.rc, v1.last, clear, c).unwrap();
        assert(q.len() >= 1);
        assert(v2.pending == q.reverse());
    }
}

/// Decompressing `n` pixels, with none pending, code after code: the view
/// after, the pixels produced, and how it stopped. The pixels of a code
/// beyond the `n` asked for stay pending.
pub open spec fn dec_codes(v: DecView, clear: i32, eof: i32, bpp: i32, n: nat) -> (DecView, Seq<u8>, DecEnd)
    decreases n, 8 * v.stream.len() + v.nbits, if v.rb == 0 { 1int } else { 0int },
    when 0 <= v.rb && 0 <= bpp <= 8
{
    if n == 0 {
        (v, Seq::empty(), DecEnd::Done)
    } else {
        match read_code(v) {
            None => (v, Seq::empty(), DecEnd::ShortData),
            Some((v1, c)) => match dec_code(v1, clear, eof, bpp, c) {
                Err(e) => (v1, Seq::empty(), if e == GifError::DEofTooSoon { DecEnd::EndCode } else { DecEnd::Defect }),
                Ok(v2) => {
                    let k: nat = if v2.pending.len() <= n { v2.pending.len() } else { n };
                    proof {
                        lemma_dec_code_progress(v, v1, v2, clear, eof, bpp, c);
                    }
                    let (v3, out, end) = dec_codes(DecView { pending: v2.pending.skip(k as int), ..v2 }, clear, eof, bpp, (n - k) as nat);
                    (v3, v2.pending.take(k as int) + out, end)
                },
            },
        }
    }
}

/// Decompressing `n` pixels: the pending pixels go out first, then those of
/// the codes read.
pub open spec fn dec_line(v: DecView, clear: i32, eof: i32, bpp: i32, n: nat) -> (DecView, Seq<u8>, DecEnd) {
    let k: nat = if v.pending.len() <= n { v.pending.len() } else { n };
    let (v1, out, end) = dec_codes(DecView { pending: v.pending.skip(k as int), ..v }, clear, eof, bpp, (n - k) as nat);
    (v1, v.pending.take(k as int) + out, end)
}

/// With no pixel pending, decompressing `a + b` pixels code after code is
/// decompressing `a` pixels, then `b` more from where that stopped, when
/// the first part completes.
proof fn lemma_dec_codes_split(w: DecView, clear: i32, eof: i32, bpp: i32, a: nat, b: nat)
    requires
        0 <= w.rb,
        0 <= bpp <= 8,
        w.pending.len() == 0,
        dec_codes(w, clear, eof, bpp, a).2 == DecEnd::Done,
    ensures
        dec_codes(w, clear, eof, bpp, a + b) == after_prefix(
            dec_line(dec_codes(w, clear, eof, bpp, a).0, clear, eof, bpp, b),
            dec_codes(w, clear, eof, bpp, a).1),
    decreases a, 8 * w.stream.len() + w.nbits, if w.rb == 0 { 1int } else { 0int },
{
    if a == 0 {
        let t = dec_codes(w, clear, eof, bpp, b);
        assert(DecView { pending: w.pending.skip(0), ..w } == w) by {
            assert(w.pending.skip(0) =~= w.pending);
        }
        assert(w.pending.take(0) + t.1 =~= t.1);
        assert(Seq::<u8>::empty() + t.1 =~= t.1);
    } else {
        assert(read_code(w) is Some);
        let (w1, c) = read_code(w).unwrap();
        assert(dec_code(w1, clear, eof, bpp, c) is Ok);
        let w2 = dec_code(w1, clear, eof, bpp, c).unwrap();
        lemma_dec_code_progress(w, w1, w2, clear, eof, bpp, c);
        let p = w2.pending;
        if p.len() >= a {
            let k2: nat = if p.len() - a <= b { (p.len() - a) as nat } else { b };
            let wa = DecView { pending: p.skip(a as int), ..w2 };
            assert(dec_codes(wa, clear, eof, bpp, 0) == (wa, Seq::<u8>::empty(), DecEnd::Done));
            assert(dec_codes(w, clear, eof, bpp, a) == (wa, p.take(a as int) + Seq::<u8>::empty(), DecEnd::Done));
            assert(p.take(a as int) + Seq::<u8>::empty() =~= p.take(a as int));
            assert((b - k2) as nat == (a + b - (a + k2)) as nat);
            assert(p.skip(a as int).skip(k2 as int) =~= p.skip((a + k2) as int));
            assert(p.take(a as int) + p.skip(a as int).take(k2 as int) =~= p.take((a + k2) as int));
            let t = dec_codes(DecView { pending: p.skip((a + k2) as int), ..w2 }, clear, eof, bpp, (b - k2) as nat);
            assert(p.take(a as int) + (p.skip(a as int).take(k2 as int) + t.1) =~= p.take((a + k2) as int) + t.1);
            assert(p.take(a as int) + Seq::<u8>::empty() =~= p.take(a as int));
        } else {
            let wn = DecView { pending: p.skip(p.len() as int), ..w2 };
            assert(wn.pending =~= Seq::<u8>::empty());
            lemma_dec_codes_split(wn, clear, eof, bpp, (a - p.len()) as nat, b);
            assert((a + b - p.len()) as nat == ((a - p.len()) as nat + b) as nat);
            let t1 = dec_codes(wn, clear, eof, bpp, (a - p.len()) as nat);
            let t2 = dec_line(t1.0, clear, eof, bpp, b);
            assert(p.take(p.len() as int) + (t1.1 + t2.1) =~= (p.take(p.len() as int) + t1.1) + t2.1);
        }
    }
}

/// Decompressing a line of `a + b` pixels gives the pixels of a line of
/// `a`, then those of a line of `b` decompressed from where the first left
/// off, when the first line completes: reading an image's pixels line by
/// line reads the same pixels as reading them at once.
pub proof fn lemma_dec_line_split(v: DecView, clear: i32, eof: i32, bpp: i32, a: nat, b: nat)
    requires
        0 <= v.rb,
        0 <= bpp <= 8,
        dec_line(v, clear, eof, bpp, a).2 == DecEnd::Done,
    ensures
        dec_line(v, clear, eof, bpp, a + b) == after_prefix(
            dec_line(dec_line(v, clear, eof, bpp, a).0, clear, eof, bpp, b),
            dec_line(v, clear, eof, bpp, a).1),
{
    let p = v.pending;
    if p.len() >= a {
        let k2: nat = if p.len() - a <= b { (p.len() - a) as nat } else { b };
        let va = DecView { pending: p.skip(a as int), ..v };
        assert(dec_codes(va, clear, eof, bpp, 0) == (va, Seq::<u8>::empty(), DecEnd::Done));
        assert(p.take(a as int) + Seq::<u8>::empty() =~= p.take(a as int));
        assert(p.skip(a as int).skip(k2 as int) =~= p.skip((a + k2) as int));
        let t = dec_codes(DecView { pending: p.skip((a + k2) as int), ..v }, clear, eof, bpp, (b - k2) as nat);
        assert(p.take(a as int) + (p.skip(a as int).take(k2 as int) + t.1) =~= p.take((a + k2) as int) + t.1);
    } else {
        let w = DecView { pending: p.skip(p.len() as int), ..v };
        assert(w.pending =~= Seq::<u8>::empty());
        lemma_dec_codes_split(w, clear, eof, bpp, (a - p.len()) as nat, b);
        assert((a + b - p.len()) as nat == ((a - p.len()) as nat + b) as nat);
        let t1 = dec_codes(w, clear, eof, bpp, (a - p.len()) as nat);
        let t2 = dec_line(t1.0, clear, eof, bpp, b);
        assert(p.take(p.len() as int) + (t1.1 + t2.1) =~= (p.take(p.len() as int) + t1.1) + t2.1);
    }
}

/// Reading a line of `n + m` pixels from a handle, when it decompresses
/// completely, reads what a line of `n` pixels and then a line of `m` pixels
/// from where that one stopped read, each decompressing completely, and
/// leaves the decompressor as they leave it (`dgif_decompress_line` gives
/// these lines and states for a handle whose sub-block buffer is in the form
/// the decompressor leaves it).
pub proof fn lemma_handle_line_split(g: GifFileType, n: nat, m: nat)
    requires
        g.wf(),
        g.readable(),
    ensures
        ({
            let l = g.Private.lzw;
            let whole = dec_line(dec_view(g), l.clear_code, l.eof_code, l.bits_per_pixel, n + m);
            let first = dec_line(dec_view(g), l.clear_code, l.eof_code, l.bits_per_pixel, n);
            let second = dec_line(first.0, l.clear_code, l.eof_code, l.bits_per_pixel, m);
            whole.2 == DecEnd::Done ==> {
                &&& first.2 == DecEnd::Done
                &&& second.2 == DecEnd::Done
                &&& first.1 + second.1 == whole.1
                &&& second.0 == whole.0
            }
        }),
{
    let l = g.Private.lzw;
    let v = dec_view(g);
    if dec_line(v, l.clear_code, l.eof_code, l.bits_per_pixel, n).2 != DecEnd::Done {
        lemma_dec_line_stop(v, l.clear_code, l.eof_code, l.bits_per_pixel, n, m);
    } else {
        lemma_dec_line_split(v, l.clear_code, l.eof_code, l.bits_per_pixel, n, m);
    }
}

/// With no pixel pending, decompressing code after code that stops before
/// `a` pixels stops the same way when asked for `a + b`.
proof fn lemma_dec_codes_stop(w: DecView, clear: i32, eof: i32, bpp: i32, a: nat, b: nat)
    requires
        0 <= w.rb,
        0 <= bpp <= 8,
        w.pending.len() == 0,
        dec_codes(w, clear, eof, bpp, a).2 != DecEnd::Done,
    ensures
        dec_codes(w, clear, eof, bpp, a + b).2 == dec_codes(w, clear, eof, bpp, a).2,
    decreases a, 8 * w.stream.len() + w.nbits, if w.rb == 0 { 1int } else { 0int },
{
    if a > 0 {
        match read_code(w) {
            None => {},
            Some((w1, c)) => {
                match dec_code(w1, clear, eof, bpp, c) {
                    Err(e) => {},
                    Ok(w2) => {
                        lemma_dec_code_progress(w, w1, w2, clear, eof, bpp, c);
                        let p = w2.pending;
                        if p.len() < a {
                            let wn = DecView { pending: p.skip(p.len() as int), ..w2 };
                            assert(wn.pending =~= Seq::<u8>::empty());
                            lemma_dec_codes_stop(wn, clear, eof, bpp, (a - p.len()) as nat, b);
                            assert((a + b - p.len()) as nat == ((a - p.len()) as nat + b) as nat);
                            assert(dec_codes(w, clear, eof, bpp, a).2 == dec_codes(wn, clear, eof, bpp, (a - p.len()) as nat).2);
                            assert(dec_codes(w, clear, eof, bpp, a + b).2 == dec_codes(wn, clear, eof, bpp, (a + b - p.len()) as nat).2);
                        } else {
                            let wa = DecView { pending: p.skip(a as int), ..w2 };
                            assert(dec_codes(wa, clear, eof, bpp, 0).2 == DecEnd::Done);
                            assert(dec_codes(w, clear, eof, bpp, a).2 == DecEnd::Done);
                        }
                    },
                }
            },
        }
    }
}

/// Decompressing stops where it stopped: when a line of `a` pixels ends
/// early, a line of `a + b` pixels from the same point ends the same way.
pub proof fn lemma_dec_line_stop(v: DecView, clear: i32, eof: i32, bpp: i32, a: nat, b: nat)
    requires
        0 <= v.rb,
        0 <= bpp <= 8,
        dec_line(v, clear, eof, bpp, a).2 != DecEnd::Done,
    ensures
        dec_line(v, clear, eof, bpp, a + b).2 == dec_line(v, clear, eof, bpp, a).2,
{
    let p = v.pending;
    if p.len() < a {
        let w = DecView { pending: p.skip(p.len() as int), ..v };
        assert(w.pending =~= Seq::<u8>::empty());
        lemma_dec_codes_stop(w, clear, eof, bpp, (a - p.len()) as nat, b);
        assert((a + b - p.len()) as nat == ((a - p.len()) as nat + b) as nat);
    } else {
        let va = DecView { pending: p.skip(a as int), ..v };
        assert(dec_codes(va, clear, eof, bpp, 0).2 == DecEnd::Done);
    }
}

/// Put the pixels of the code `c`, read after `last_code`, into `line` from
/// position `i` on, as many as fit: a code below the clear code is its own
/// pixel, another is expanded on the stack (`code_pushes`). The pixels that
/// do not fit stay on the stack, and the table gains its entry
/// (`table_add`). Gives back the next position in the line and the number
/// of pixels left on the stack.
fn put_code_pixels(lzw: &mut LzwState, line: &mut [u8], i: usize, c: i32, last_code: i32) -> (r: Result<(usize, i32), GifError>)
    requires
        old(lzw).wf(),
        0 <= old(lzw).clear_code,
        0 <= c <= LZ_MAX_CODE,
        0 <= old(lzw).running_code <= LZ_MAX_CODE + 2,
        c >= old(lzw).clear_code && old(lzw).prefix@[c as int] == NO_SUCH_CODE as u32 ==> 2 <= old(lzw).running_code,
        i < old(line)@.len(),
    ensures
        final(lzw).wf(),
        *final(lzw) == (LzwState {
            stack: final(lzw).stack,
            prefix: final(lzw).prefix,
            suffix: final(lzw).suffix,
            ..*old(lzw)
        }),
        final(line)@.len() == old(line)@.len(),
        match code_pushes(old(lzw).prefix@, old(lzw).suffix@, old(lzw).running_code, last_code, old(lzw).clear_code, c) {
            None => r == Err::<(usize, i32), GifError>(GifError::DImageDefect) && final(line)@ == old(line)@,
            Some((s1, q)) => {
                let k: nat = if q.len() <= old(line)@.len() - i { q.len() } else { (old(line)@.len() - i) as nat };
                &&& r == Ok::<(usize, i32), GifError>(((i + k) as usize, (q.len() - k) as i32))
                &&& 1 <= q.len() <= LZ_MAX_CODE
                &&& final(line)@ == old(line)@.take(i as int) + q.reverse().take(k as int) + old(line)@.skip(i + k)
                &&& (final(lzw).prefix@, final(lzw).suffix@)
                    == table_add(old(lzw).prefix@, s1, old(lzw).running_code, last_code, old(lzw).clear_code, c)
                &&& stack_pixels(final(lzw).stack@, q.len() - k) == q.reverse().skip(k as int)
            },
        },
{
    let clear_code = lzw.clear_code;
    let line_len = line.len();
    let ghost ln0 = line@;
    let ghost l0 = *lzw;
    let mut i = i;
    let ghost i0 = i;
    let mut stack_ptr: i32 = 0;
    if c < clear_code {
        line[i] = c as u8;
        i = i + 1;
        proof {
            let q = seq![c as u8];
            assert(line@ =~= ln0.take(i0 as int) + q.reverse().take(1) + ln0.skip(i as int));
            assert(stack_pixels(lzw.stack@, 0) =~= q.reverse().skip(1));
        }
    } else {
        match push_code(lzw, c, last_code) {
            Ok(sp) => {
                stack_ptr = sp;
            },
            Err(e) => {
                return Err(e);
            },
        }
        let ghost q = code_pushes(l0.prefix@, l0.suffix@, l0.running_code, last_code, clear_code, c).unwrap().1;
        let ghost sb = stack_ptr;
        proof {
            assert(stack_pixels(lzw.stack@, sb as int) =~= q.reverse());
        }
        while stack_ptr != 0 && i < line_len
            invariant
                0 <= stack_ptr <= sb <= LZ_MAX_CODE,
                i0 <= i <= line_len == line@.len() == ln0.len(),
                i - i0 == sb - stack_ptr,
                lzw.stack@.len() == LZ_MAX_CODE + 1,
                stack_pixels(lzw.stack@, sb as int) == q.reverse(),
                line@ == ln0.take(i0 as int) + q.reverse().take(i - i0) + ln0.skip(i as int),
            decreases stack_ptr,
        {
            let ghost l2 = line@;
            stack_ptr = stack_ptr - 1;
            line[i] = lzw.stack[stack_ptr as usize];
            i = i + 1;
            proof {
                let rq = q.reverse();
                assert(rq.take(i - i0) =~= rq.take(i - 1 - i0) + seq![rq[i - 1 - i0]]);
                assert(line@ =~= ln0.take(i0 as int) + rq.take(i - i0) + ln0.skip(i as int));
            }
        }
        proof {
            assert(stack_pixels(lzw.stack@, stack_ptr as int) =~= q.reverse().skip(i - i0));
        }
    }
    add_table_entry(lzw, c, last_code);
    Ok((i, stack_ptr))
}

proof fn lemma_skip_more(a: Seq<u8>, b: Seq<u8>, i0: int, i: int)
    requires
        0 <= i0 <= i <= a.len(),
        a.len() == b.len(),
        a.skip(i0) == b.skip(i0),
    ensures
        a.skip(i) == b.skip(i),
{
    assert forall|j: int| 0 <= j < a.len() - i implies a.skip(i)[j] == b.skip(i)[j] by {
        assert(a.skip(i0)[i - i0 + j] == b.skip(i0)[i - i0 + j]);
    }
    assert(a.skip(i) =~= b.skip(i));
}

/// A clear code takes the decompression on with the table reset and no
/// pixel.
proof fn lemma_clear_step(v: DecView, v1: DecView, v2: DecView, clear: i32, eof: i32, bpp: i32, c: i32, m: nat,
    before: Seq<u8>, d: (DecView, Seq<u8>, DecEnd))
    requires
        0 <= v.rb,
        0 <= bpp <= 8,
        m > 0,
        read_code(v) == Some((v1, c)),
        dec_code(v1, clear, eof, bpp, c) == Ok::<DecView, GifError>(v2),
        v2.pending.len() == 0,
        d == after_prefix(dec_codes(v, clear, eof, bpp, m), before),
    ensures
        d == after_prefix(dec_codes(v2, clear, eof, bpp, m), before),
{
    lemma_dec_code_progress(v, v1, v2, clear, eof, bpp, c);
    assert(DecView { pending: v2.pending.skip(0), ..v2 } == v2) by {
        assert(v2.pending.skip(0) =~= v2.pending);
    }
    let t = dec_codes(v2, clear, eof, bpp, m);
    assert(v2.pending.take(0) + t.1 =~= t.1);
}

/// A code with pixels takes the decompression on with its first `k`
/// pixels in the line and the rest pending.
proof fn lemma_code_step(v: DecView, v1: DecView, vn: DecView, clear: i32, eof: i32, bpp: i32, c: i32,
    s1: Seq<u8>, q: Seq<u8>, m: nat, k: nat, before: Seq<u8>, after: Seq<u8>, d: (DecView, Seq<u8>, DecEnd))
    requires
        0 <= v.rb,
        0 <= bpp <= 8,
        m > 0,
        read_code(v) == Some((v1, c)),
        c != eof,
        c != clear,
        code_pushes(v1.prefix, v1.suffix, v1.rc, v1.last, clear, c) == Some((s1, q)),
        (vn.prefix, vn.suffix) == table_add(v1.prefix, s1, v1.rc, v1.last, clear, c),
        vn == (DecView { prefix: vn.prefix, suffix: vn.suffix, last: c, pending: q.reverse().skip(k as int), ..v1 }),
        k == (if q.len() <= m { q.len() } else { m }),
        after == before + q.reverse().take(k as int),
        d == after_prefix(dec_codes(v, clear, eof, bpp, m), before),
    ensures
        d == after_prefix(dec_codes(vn, clear, eof, bpp, (m - k) as nat), after),
{
    let v2 = DecView { prefix: vn.prefix, suffix: vn.suffix, last: c, pending: q.reverse(), ..v1 };
    assert(dec_code(v1, clear, eof, bpp, c) == Ok::<DecView, GifError>(v2));
    lemma_dec_code_progress(v, v1, v2, clear, eof, bpp, c);
    assert(DecView { pending: v2.pending.skip(k as int), ..v2 } == vn);
    let t = dec_codes(vn, clear, eof, bpp, (m - k) as nat);
    assert(dec_codes(v, clear, eof, bpp, m) == (t.0, q.reverse().take(k as int) + t.1, t.2));
    assert(before + (q.reverse().take(k as int) + t.1) =~= after + t.1);
}

/// Read the next code and act on it, with no pixel pending and `line`
/// filled up to position `i`: the end code zeroes the rest of the line and
/// fails with `DEofTooSoon`; the clear code resets the table; another code
/// puts its pixels into the line (`put_code_pixels`). Gives back the next
/// position in the line, the number of pixels left on the stack and the
/// code read, which the next code follows. This is one step of `dec_codes`.
#[verifier::rlimit(100)]
#[verifier::spinoff_prover]
fn decode_next_code(gif: &mut GifFileType, line: &mut [u8], i: usize, last_code: i32) -> (r: Result<(usize, i32, i32), GifError>)
    requires
        old(gif).readable(),
        old(gif).wf(),
        decoder_ready(old(gif).Private.lzw),
        i < old(line)@.len(),
    ensures
        final(gif).wf(),
        decoder_ready(final(gif).Private.lzw),
        same_except_io_lzw(*final(gif), *old(gif)),
        final(gif).readable() == old(gif).readable(),
        final(gif).output() == old(gif).output(),
        final(gif).Private.lzw.clear_code == old(gif).Private.lzw.clear_code,
        final(gif).Private.lzw.eof_code == old(gif).Private.lzw.eof_code,
        final(gif).Private.lzw.bits_per_pixel == old(gif).Private.lzw.bits_per_pixel,
        final(gif).input().len() <= old(gif).input().len(),
        final(line)@.len() == old(line)@.len(),
        final(line)@.take(i as int) == old(line)@.take(i as int),
        r is Ok ==> past_blocks(old(gif).input(), final(gif).input()),
        r is Err ==> (r == Err::<(usize, i32, i32), GifError>(GifError::DImageDefect)
            || r == Err::<(usize, i32, i32), GifError>(GifError::DEofTooSoon)
            || r == Err::<(usize, i32, i32), GifError>(GifError::DReadFailed)),
        r matches Ok((ni, sp, nl)) ==> {
            &&& i <= ni <= old(line)@.len()
            &&& 0 <= sp <= LZ_MAX_CODE
            &&& ni < old(line)@.len() ==> sp == 0
            &&& final(line)@.skip(ni as int) == old(line)@.skip(ni as int)
            &&& (ni > i || input_measure(*final(gif)) < input_measure(*old(gif))
                || (input_measure(*final(gif)) <= input_measure(*old(gif)) && old(gif).Private.lzw.running_bits == 0
                    && final(gif).Private.lzw.running_bits != 0))
        },
        cursor_form(old(gif).Private.lzw.buf@) ==> ({
            let l = old(gif).Private.lzw;
            let m = (old(line)@.len() - i) as nat;
            let t = dec_codes(dec_view_at(*old(gif), 0, last_code), l.clear_code, l.eof_code, l.bits_per_pixel, m);
            match r {
                Ok((ni, sp, nl)) => {
                    &&& cursor_form(final(gif).Private.lzw.buf@)
                    &&& t == after_prefix(dec_codes(dec_view_at(*final(gif), sp as int, nl), l.clear_code, l.eof_code,
                        l.bits_per_pixel, (old(line)@.len() - ni) as nat), final(line)@.subrange(i as int, ni as int))
                },
                Err(e) => {
                    &&& t.1 == Seq::<u8>::empty()
                    &&& (t.2 == DecEnd::EndCode) == (e == GifError::DEofTooSoon)
                    &&& t.2 == DecEnd::EndCode ==> final(line)@ == old(line)@.take(i as int)
                        + Seq::new((old(line)@.len() - i) as nat, |k: int| 0u8)
                    &&& t.2 == DecEnd::Defect ==> e == GifError::DImageDefect && final(line)@ == old(line)@
                    &&& t.2 == DecEnd::ShortData ==> e == data_end_error(old(gif).input())
                        && final(line)@ == old(line)@
                    &&& t.2 != DecEnd::Done
                },
            }
        }),
{
    let line_len = line.len();
    let eof_code = gif.Private.lzw.eof_code;
    let clear_code = gif.Private.lzw.clear_code;
    let ghost cf = cursor_form(old(gif).Private.lzw.buf@);
    let ghost bpp = gif.Private.lzw.bits_per_pixel;
    let ghost gb = *gif;
    let ghost lb = line@;
    let ghost m: nat = (line_len - i) as nat;
    let ghost vb = dec_view_at(*gif, 0, last_code);
    let ghost m0 = input_measure(*gif);
    let mut crnt_code: i32 = 0;
    match dgif_decompress_input(gif, &mut crnt_code) {
        Ok(()) => {},
        Err(e) => {
            proof {
                if cf {
                    assert(read_code(vb) is None);
                }
            }
            return Err(e);
        },
    }
    let ghost v1 = dec_view_at(*gif, 0, last_code);
    proof {
        lemma_pow2_bits_mono(gif.Private.lzw.running_bits as int, 12);
        lemma_pow2_bits_bound(12);
        lemma_pow2_bits_mono(gb.Private.lzw.running_bits as int, 12);
        if cf {
            let l = gb.Private.lzw;
            let rb = l.running_bits as int;
            let k = bytes_needed(l.crnt_shift_state as int, rb);
            let f = fill_bits(l.crnt_shift_dword, l.crnt_shift_state as int, code_stream(gb).take(k));
            assert(crnt_code == (f & ((1u64 << (rb as u64)) - 1) as u64) as i32);
            assert(read_code(vb) == Some((v1, crnt_code)));
        }
    }
    if crnt_code == eof_code {
        let mut k = i;
        while k < line_len
            invariant
                i <= k <= line_len == line@.len(),
                line@.len() == lb.len(),
                line@.take(i as int) == lb.take(i as int),
                forall|j: int| i <= j < k ==> line@[j] == 0u8,
            decreases line_len - k,
        {
            line[k] = 0;
            k = k + 1;
            assert(line@.take(i as int) =~= lb.take(i as int));
        }
        proof {
            assert(line@ =~= lb.take(i as int) + Seq::new((line_len - i) as nat, |j: int| 0u8));
        }
        return Err(GifError::DEofTooSoon);
    } else if crnt_code == clear_code {
        // Reset the table.
        fill_prefix(&mut gif.Private.lzw.prefix, NO_SUCH_CODE as u32);
        let bpp_x = gif.Private.lzw.bits_per_pixel;
        gif.Private.lzw.running_code = gif.Private.lzw.eof_code + 1;
        gif.Private.lzw.running_bits = bpp_x + 1;
        gif.Private.lzw.max_code1 = pow2_i32(bpp_x + 1);
        gif.Private.lzw.last_code = NO_SUCH_CODE;
        assert(input_measure(*gif) <= m0);
        proof {
            assert(line@.subrange(i as int, i as int) =~= Seq::<u8>::empty());
            if cf {
                let v2 = dec_view_at(*gif, 0, NO_SUCH_CODE);
                assert(v2.prefix =~= Seq::new((LZ_MAX_CODE + 1) as nat, |j: int| NO_SUCH_CODE as u32));
                assert(dec_code(v1, clear_code, eof_code, bpp, crnt_code) == Ok::<DecView, GifError>(v2));
                lemma_clear_step(vb, v1, v2, clear_code, eof_code, bpp, crnt_code, m,
                    Seq::<u8>::empty(), dec_codes(vb, clear_code, eof_code, bpp, m));
                let t2 = dec_codes(v2, clear_code, eof_code, bpp, m);
                assert(Seq::<u8>::empty() + t2.1 =~= t2.1);
            }
        }
        Ok((i, 0, NO_SUCH_CODE))
    } else {
        let ghost lz = gif.Private.lzw;
        proof {
            if crnt_code >= clear_code && lz.prefix@[crnt_code as int] == NO_SUCH_CODE as u32 {
                assert(has_free_entry(gb.Private.lzw.prefix@));
            }
        }
        let (ni, sp) = match put_code_pixels(&mut gif.Private.lzw, line, i, crnt_code, last_code) {
            Ok(p) => p,
            Err(e) => {
                return Err(e);
            },
        };
        proof {
            let (s1, q) = code_pushes(lz.prefix@, lz.suffix@, lz.running_code, last_code, clear_code, crnt_code).unwrap();
            let k = (ni - i) as nat;
            assert(line@.take(i as int) =~= lb.take(i as int));
            assert(line@.skip(ni as int) =~= lb.skip(ni as int));
            assert(line@.subrange(i as int, ni as int) =~= q.reverse().take(k as int));
            if cf {
                let vn = dec_view_at(*gif, sp as int, crnt_code);
                assert(vn == (DecView { prefix: vn.prefix, suffix: vn.suffix, last: crnt_code,
                    pending: q.reverse().skip(k as int), ..v1 }));
                lemma_code_step(vb, v1, vn, clear_code, eof_code, bpp, crnt_code, s1, q, m, k,
                    Seq::<u8>::empty(), line@.subrange(i as int, ni as int), dec_codes(vb, clear_code, eof_code, bpp, m));
                assert(Seq::<u8>::empty() + q.reverse().take(k as int) =~= q.reverse().take(k as int));
            }
        }
        Ok((ni, sp, crnt_code))
    }
}

/// The decompression `d` with the pixels `done` put before its own.
pub open spec fn after_prefix(d: (DecView, Seq<u8>, DecEnd), done: Seq<u8>) -> (DecView, Seq<u8>, DecEnd) {
    (d.0, done + d.1, d.2)
}

/// Decompress the next `line.len()` pixels into `line`: the pixels left
/// pending on the stack go first, then those of the codes read, as
/// `dec_line` describes them, when the sub-block buffer is in the form that
/// the decompressor leaves it. The end code before the line is full zeroes
/// the rest of the line and fails with `DEofTooSoon`; a code that cannot be
/// expanded fails with `DImageDefect`, and compressed data that runs out
/// with `DImageDefect` or `DReadFailed`.
#[verifier::rlimit(100)]
#[verifier::spinoff_prover]
#[verifier::loop_isolation(false)]
pub fn dgif_decompress_line(gif: &mut GifFileType, line: &mut [u8]) -> (r: Result<(), GifError>)
    requires
        old(gif).readable(),
        old(gif).wf(),
        decoder_ready(old(gif).Private.lzw),
    ensures
        final(gif).wf(),
        decoder_ready(final(gif).Private.lzw),
        same_except_io_lzw(*final(gif), *old(gif)),
        final(gif).readable() == old(gif).readable(),
        final(gif).output() == old(gif).output(),
        final(gif).Private.lzw.clear_code == old(gif).Private.lzw.clear_code,
        final(gif).Private.lzw.eof_code == old(gif).Private.lzw.eof_code,
        final(gif).Private.lzw.bits_per_pixel == old(gif).Private.lzw.bits_per_pixel,
        final(line)@.len() == old(line)@.len(),
        final(gif).input().len() <= old(gif).input().len(),
        r is Ok ==> line_ready(final(gif).Private.lzw),
        r is Ok ==> past_blocks(old(gif).input(), final(gif).input()),
        old(gif).Private.lzw.stack_ptr > LZ_MAX_CODE ==> r == Err::<(), GifError>(GifError::DImageDefect),
        r is Err ==> (r == Err::<(), GifError>(GifError::DImageDefect) || r == Err::<(), GifError>(GifError::DEofTooSoon)
            || r == Err::<(), GifError>(GifError::DReadFailed)),
        cursor_form(old(gif).Private.lzw.buf@) && old(gif).Private.lzw.stack_ptr <= LZ_MAX_CODE ==> ({
            let l = old(gif).Private.lzw;
            let n = old(line)@.len();
            let (v, out, end) = dec_line(dec_view(*old(gif)), l.clear_code, l.eof_code, l.bits_per_pixel, n);
            &&& (r is Ok <==> end == DecEnd::Done)
            &&& r is Ok ==> final(line)@ == out && dec_view(*final(gif)) == v && cursor_form(final(gif).Private.lzw.buf@)
            &&& end == DecEnd::EndCode ==> r == Err::<(), GifError>(GifError::DEofTooSoon)
                && final(line)@ == out + Seq::new((n - out.len()) as nat, |k: int| 0u8)
            &&& end == DecEnd::Defect ==> r == Err::<(), GifError>(GifError::DImageDefect)
                && final(line)@ == out + old(line)@.skip(out.len() as int)
            &&& end == DecEnd::ShortData ==> r == Err::<(), GifError>(data_end_error(old(gif).input()))
                && final(line)@ == out + old(line)@.skip(out.len() as int)
        }),
{
    let line_len = line.len();
    let mut i: usize = 0;
    let mut stack_ptr = gif.Private.lzw.stack_ptr;
    let eof_code = gif.Private.lzw.eof_code;
    let clear_code = gif.Private.lzw.clear_code;
    let mut last_code = gif.Private.lzw.last_code;
    let ghost g0 = *gif;

    if stack_ptr > LZ_MAX_CODE as i32 {
        return Err(GifError::DImageDefect);
    }
    let ghost cf = cursor_form(g0.Private.lzw.buf@);
    let ghost bpp = g0.Private.lzw.bits_per_pixel;
    let ghost v0 = dec_view(g0);
    let ghost d = dec_line(v0, clear_code, eof_code, bpp, line_len as nat);

    // Pop any leftover pixels from the stack.
    while stack_ptr != 0 && i < line_len
        invariant
            0 <= stack_ptr <= LZ_MAX_CODE,
            i <= line_len == line@.len(),
            gif.Private.lzw.stack@.len() == LZ_MAX_CODE + 1,
            *gif == g0,
            stack_ptr + i == g0.Private.lzw.stack_ptr,
            line@.take(i as int) == v0.pending.take(i as int),
            line@.skip(i as int) == old(line)@.skip(i as int),
        decreases stack_ptr,
    {
        let ghost l0 = line@;
        stack_ptr = stack_ptr - 1;
        line[i] = gif.Private.lzw.stack[stack_ptr as usize];
        i = i + 1;
        assert(line@.take(i as int) =~= l0.take(i - 1) + seq![v0.pending[i - 1]]);
        assert(v0.pending.take(i as int) =~= v0.pending.take(i - 1) + seq![v0.pending[i - 1]]);
        proof {
            assert(line@.skip(i as int) =~= l0.skip(i as int));
            lemma_skip_more(l0, old(line)@, i - 1, i as int);
        }
    }
    proof {
        lemma_past_blocks_refl(g0.input());
        let k = i as int;
        assert(stack_pixels(gif.Private.lzw.stack@, stack_ptr as int) =~= v0.pending.skip(k));
        assert(dec_view_at(*gif, stack_ptr as int, last_code) == DecView { pending: v0.pending.skip(k), ..v0 });
    }

    while i < line_len
        invariant
            gif.wf(),
            decoder_ready(gif.Private.lzw),
            same_except_io_lzw(*gif, g0),
            g0 == *old(gif),
            gif.readable() == g0.readable(),
            gif.output() == g0.output(),
            gif.Private.lzw.clear_code == clear_code == g0.Private.lzw.clear_code,
            gif.Private.lzw.eof_code == eof_code == g0.Private.lzw.eof_code,
            gif.Private.lzw.bits_per_pixel == bpp == g0.Private.lzw.bits_per_pixel,
            0 <= stack_ptr <= LZ_MAX_CODE,
            i < line_len ==> stack_ptr == 0,
            i <= line_len == line@.len(),
            line@.len() == old(line)@.len(),
            gif.input().len() <= g0.input().len(),
            past_blocks(g0.input(), gif.input()),
            line@.skip(i as int) == old(line)@.skip(i as int),
            cf ==> cursor_form(gif.Private.lzw.buf@),
            cf ==> d == after_prefix(dec_codes(dec_view_at(*gif, stack_ptr as int, last_code), clear_code, eof_code, bpp,
                (line_len - i) as nat), line@.take(i as int)),
        decreases line_len - i, input_measure(*gif), if gif.Private.lzw.running_bits == 0 { 1int } else { 0int },
    {
        let ghost gb = *gif;
        let ghost lb = line@;
        let ghost i0 = i;
        match decode_next_code(gif, line, i, last_code) {
            Ok((ni, sp, nl)) => {
                i = ni;
                stack_ptr = sp;
                last_code = nl;
                proof {
                    crate::file::lemma_same_except_io_lzw_trans(*gif, gb, g0);
                    lemma_past_blocks_trans(g0.input(), gb.input(), gif.input());
                    lemma_skip_more(lb, old(line)@, i0 as int, i as int);
                    if cf {
                        assert(line@.take(i as int) =~= lb.take(i0 as int) + line@.subrange(i0 as int, i as int));
                    }
                }
            },
            Err(e) => {
                proof {
                    crate::file::lemma_same_except_io_lzw_trans(*gif, gb, g0);
                    if cf {
                        assert(lb.take(i as int) + Seq::<u8>::empty() =~= lb.take(i as int));
                        assert(lb =~= lb.take(i as int) + old(line)@.skip(i as int));
                    }
                }
                return Err(e);
            },
        }
    }
    gif.Private.lzw.last_code = last_code;
    gif.Private.lzw.stack_ptr = stack_ptr;
    proof {
        if cf {
            assert(line@.take(line_len as int) =~= line@);
            assert(line@ + Seq::<u8>::empty() =~= line@);
        }
    }
    Ok(())
}

/// `l` is `l0` set up for decompressing with code size `cs`: codes start
/// at `cs + 1` bits, the code table is empty and the sub-block buffer too.
pub open spec fn decoder_reset(l0: LzwState, l: LzwState, cs: int) -> bool {
    &&& l.buf@ == l0.buf@.update(0, 0)
    &&& l.bits_per_pixel == cs
    &&& l.clear_code == pow2_bits(cs)
    &&& l.eof_code == l.clear_code + 1
    &&& l.running_code == l.eof_code + 1
    &&& l.running_bits == cs + 1
    &&& l.max_code1 == pow2_bits(cs + 1)
    &&& l.stack_ptr == 0
    &&& l.last_code == NO_SUCH_CODE
    &&& l.crnt_shift_state == 0
    &&& l.crnt_shift_dword == 0
    &&& l.prefix@ == Seq::new((LZ_MAX_CODE + 1) as nat, |i: int| NO_SUCH_CODE as u32)
    &&& l.stack == l0.stack
    &&& l.suffix == l0.suffix
    &&& l.crnt_code == l0.crnt_code
    &&& l.hash_table == l0.hash_table
    &&& decoder_ready(l)
    &&& cursor_form(l.buf@)
}

/// Prepare to decompress an image: read the code size and reset the code table.
pub fn dgif_setup_decompress(gif: &mut GifFileType) -> (r: Result<(), GifError>)
    requires
        old(gif).wf(),
    ensures
        final(gif).input().len() <= old(gif).input().len(),
        final(gif).wf(),
        same_except_io_lzw(*final(gif), *old(gif)),
        final(gif).readable() == old(gif).readable(),
        final(gif).output() == old(gif).output(),
        r is Ok <==> (old(gif).readable() && old(gif).input().len() >= 1 && old(gif).input()[0] <= 8),
        r is Err ==> r == Err::<(), GifError>(GifError::DReadFailed),
        r is Ok ==> final(gif).input() == old(gif).input().skip(1)
            && decoder_reset(old(gif).Private.lzw, final(gif).Private.lzw, old(gif).input()[0] as int),
{
    let code_size = match gif.read_byte() {
        Ok(b) => b,
        Err(e) => return Err(e),
    };
    let bits_per_pixel = code_size as i32;
    if bits_per_pixel > 8 {
        return Err(GifError::DReadFailed);
    }
    proof {
        lemma_pow2_bits_mono(bits_per_pixel as int, 8);
        lemma_pow2_bits_mono(bits_per_pixel as int + 1, 9);
        lemma_pow2_bits_bound(9);
        reveal_with_fuel(pow2_bits, 10);
    }
    let clear = pow2_i32(bits_per_pixel);
    let max1 = pow2_i32(bits_per_pixel + 1);
    gif.Private.lzw.buf.set(0, 0);
    gif.Private.lzw.bits_per_pixel = bits_per_pixel;
    gif.Private.lzw.clear_code = clear;
    gif.Private.lzw.eof_code = clear + 1;
    gif.Private.lzw.running_code = clear + 2;
    gif.Private.lzw.running_bits = bits_per_pixel + 1;
    gif.Private.lzw.max_code1 = max1;
    gif.Private.lzw.stack_ptr = 0;
    gif.Private.lzw.last_code = NO_SUCH_CODE;
    gif.Private.lzw.crnt_shift_state = 0;
    gif.Private.lzw.crnt_shift_dword = 0;
    fill_prefix(&mut gif.Private.lzw.prefix, NO_SUCH_CODE as u32);
    Ok(())
}

/// `2^n` for small `n`.
pub fn pow2_i32(n: i32) -> (r: i32)
    requires
        0 <= n <= 13,
    ensures
        r == pow2_bits(n as int),
        1 <= r <= 8192,
{
    let mut r: i32 = 1;
    let mut i: i32 = 0;
    while i < n
        invariant
            0 <= i <= n <= 13,
            r == pow2_bits(i as int),
        decreases n - i,
    {
        proof {
            lemma_pow2_bits_bound(i as int + 1);
            lemma_pow2_bits_mono(i as int, 12);
            lemma_pow2_bits_bound(12);
        }
        r = r * 2;
        i = i + 1;
    }
    proof {
        lemma_pow2_bits_bound(n as int);
    }
    r
}

pub proof fn lemma_pow2_bits_mono(i: int, j: int)
    requires
        0 <= i <= j,
    ensures
        1 <= pow2_bits(i) <= pow2_bits(j),
    decreases j,
{
    if i < j {
        lemma_pow2_bits_mono(i, j - 1);
    } else if i > 0 {
        lemma_pow2_bits_mono(i - 1, i - 1);
    }
}

pub proof fn lemma_pow2_bits_bound(i: int)
    requires
        0 <= i <= 13,
    ensures
        pow2_bits(i) == 2 * pow2_bits(i - 1) || i == 0,
        1 <= pow2_bits(i) <= pow2_bits(13),
        pow2_bits(13) == 8192,
        pow2_bits(12) == 4096,
        pow2_bits(8) == 256,
    decreases i,
{
    reveal_with_fuel(pow2_bits, 14);
    if i > 0 {
        lemma_pow2_bits_bound(i - 1);
    }
}

/// Set every entry of the prefix table to `v`.
fn fill_prefix(p: &mut Vec<u32>, v: u32)
    ensures
        final(p)@ == Seq::new(old(p)@.len(), |i: int| v),
{
    let mut i: usize = 0;
    while i < p.len()
        invariant
            i <= p@.len() == old(p)@.len(),
            forall|k: int| 0 <= k < i ==> p@[k] == v,
        decreases p@.len() - i,
    {
        p.set(i, v);
        i = i + 1;
    }
    assert(p@ =~= Seq::new(old(p)@.len(), |i: int| v));
}

} // verus!

//! LZW compression: code-size setup, packing variable-width codes into
//! bytes, framing bytes into sub-blocks, and compressing pixel lines with
//! the hash table of known strings.
use vstd::prelude::*;
use crate::constants::{FIRST_CODE, FLUSH_OUTPUT, LZ_MAX_CODE};
use crate::decoder_lzw::{pow2_bits, pow2_i32, lemma_pow2_bits_bound, lemma_pow2_bits_mono, lemma_shl_is_pow2};
use crate::err::GifError;
use crate::file::{GifFileType, GifFilePrivateType, LzwState, io_wf, same_except_io_lzw};
use crate::hash::GifHashTableType;

verus! {

/// The bit packer's state: fewer than 8 pending bits, nothing above them in
/// the register, a code width of at most 12 bits with its limit, and a
/// running code below `LZ_MAX_CODE`.
pub open spec fn packer_ready(l: LzwState) -> bool {
    &&& l.wf()
    &&& 0 <= l.crnt_shift_state < 8
    &&& l.crnt_shift_dword >> (l.crnt_shift_state as u64) == 0
    &&& 0 <= l.running_bits <= 12
    &&& l.running_bits >= 1 ==> l.max_code1 == pow2_bits(l.running_bits as int)
    &&& l.running_bits == 0 ==> l.max_code1 == 0
    &&& 0 <= l.running_code <= LZ_MAX_CODE
    &&& 0 <= l.bits_per_pixel <= 9
    &&& 0 <= l.clear_code <= 512
    &&& 0 <= l.eof_code <= 513
}

/// The codes held by a hash table are below `limit`, and there are at most
/// `limit` of them.
pub open spec fn table_below(ht: GifHashTableType, limit: int) -> bool {
    &&& ht.wf()
    &&& ht.size() <= limit
    &&& forall|k: u32| #[trigger] ht@.contains_key(k) ==> 0 <= ht@[k] < limit
}

/// The packer's ranges, with the running code within the code width's limit
/// and the current, clear and end codes fitting the code width.
pub open spec fn encoder_ranges(l: LzwState) -> bool {
    &&& packer_ready(l)
    &&& l.running_code <= l.max_code1
    &&& 0 <= l.clear_code < pow2_bits(l.running_bits as int)
    &&& 0 <= l.eof_code < pow2_bits(l.running_bits as int)
    &&& l.crnt_code == FIRST_CODE || 0 <= l.crnt_code < pow2_bits(l.running_bits as int)
}

/// An image's compression was set up: the clear and end codes follow from
/// the pixel width, codes are at least one bit wider than pixels, the current
/// code (unless it is the start marker) is a known code, and the hash table
/// holds the strings coded so far.
pub open spec fn compressing(l: LzwState) -> bool {
    &&& 2 <= l.bits_per_pixel <= 9
    &&& l.clear_code == pow2_bits(l.bits_per_pixel as int)
    &&& l.eof_code == l.clear_code + 1
    &&& l.eof_code < l.running_code
    &&& l.bits_per_pixel + 1 <= l.running_bits
    &&& l.crnt_code != FIRST_CODE ==> l.crnt_code < l.running_code
    &&& l.hash_table matches Some(ht) && table_below(ht, l.running_code as int)
}

/// The compressor's state: its ranges, and a set-up compression while pixels
/// are owed or no code has been started.
pub open spec fn encoder_ready(p: GifFilePrivateType) -> bool {
    &&& encoder_ranges(p.lzw)
    &&& (p.pixel_count > 0 || p.lzw.crnt_code == FIRST_CODE) ==> compressing(p.lzw)
}

/// What the bit packer's output depends on and changes: the bit register
/// and its pending bit count, the code width and its limit, the running
/// code, the sub-block being filled, and the bytes written.
pub struct PackView {
    pub dword: u64,
    pub nbits: i32,
    pub rb: i32,
    pub max: i32,
    pub rc: i32,
    pub buf: Seq<u8>,
    pub out: Seq<u8>,
}

pub open spec fn pack_view(g: GifFileType) -> PackView {
    let l = g.Private.lzw;
    PackView {
        dword: l.crnt_shift_dword,
        nbits: l.crnt_shift_state,
        rb: l.running_bits,
        max: l.max_code1,
        rc: l.running_code,
        buf: l.buf@,
        out: g.output(),
    }
}

/// Append the data byte `c` to the sub-block being filled in `buf` (its count
/// in `buf[0]`); a full sub-block of 255 bytes goes to `out` first.
pub open spec fn block_put(buf: Seq<u8>, out: Seq<u8>, c: u8) -> (Seq<u8>, Seq<u8>) {
    let b1 = if buf[0] == 255 { buf.update(0, 0) } else { buf };
    let o1 = if buf[0] == 255 { out + buf } else { out };
    let n = b1[0] + 1;
    (b1.update(0, n as u8).update(n, c), o1)
}

/// Append each of `bytes` in turn with `block_put`.
pub open spec fn block_put_all(buf: Seq<u8>, out: Seq<u8>, bytes: Seq<u8>) -> (Seq<u8>, Seq<u8>)
    decreases bytes.len(),
{
    if bytes.len() == 0 {
        (buf, out)
    } else {
        let (b, o) = block_put_all(buf, out, bytes.drop_last());
        block_put(b, o, bytes.last())
    }
}

/// The lowest `n` bytes of `d`, lowest first.
pub open spec fn low_bytes(d: u64, n: nat) -> Seq<u8> {
    Seq::new(n, |i: int| ((d >> ((8 * i) as u64)) & 0xff) as u8)
}

/// The sub-block being filled goes out (when not empty), then an empty
/// sub-block that ends the data.
pub open spec fn block_flush(buf: Seq<u8>, out: Seq<u8>) -> (Seq<u8>, Seq<u8>) {
    let o1 = if buf[0] != 0 { out + buf.subrange(0, buf[0] as int + 1) } else { out };
    (buf.update(0, 0), o1 + seq![0u8])
}

/// The packer after `code` is placed above its pending bits and every full
/// byte is sent on; the code width grows by a bit once the running code has
/// reached its limit, unless `code` is a signal above `LZ_MAX_CODE`.
pub open spec fn put_code(p: PackView, code: int) -> PackView {
    let v = p.dword | ((code as u64) << (p.nbits as u64));
    let n = p.nbits + p.rb;
    let k = n / 8;
    let (b, o) = block_put_all(p.buf, p.out, low_bytes(v, k as nat));
    let grow = p.rc >= p.max && code <= LZ_MAX_CODE;
    PackView {
        dword: v >> ((8 * k) as u64),
        nbits: (n - 8 * k) as i32,
        rb: if grow { (p.rb + 1) as i32 } else { p.rb },
        max: if grow { pow2_bits(p.rb + 1) as i32 } else { p.max },
        rc: p.rc,
        buf: b,
        out: o,
    }
}

/// The packer after its pending bits are sent on as a last byte, the
/// sub-block is written out, and the data is ended by an empty sub-block.
pub open spec fn flush_bits(p: PackView) -> PackView {
    let k: nat = if p.nbits > 0 { 1 } else { 0 };
    let (b0, o0) = block_put_all(p.buf, p.out, low_bytes(p.dword, k));
    let (b, o) = block_flush(b0, o0);
    PackView { dword: p.dword >> ((8 * k) as u64), nbits: 0, buf: b, out: o, ..p }
}

proof fn lemma_shr_shr(v: u64, a: u64, b: u64)
    requires
        a == 0 || a == 8 || a == 16,
        b <= 24,
    ensures
        (v >> a) >> b == v >> (a + b) as u64,
{
    assert((v >> a) >> b == v >> (a + b) as u64) by (bit_vector)
        requires a == 0 || a == 8 || a == 16, b <= 24;
}

/// Shifting by nothing leaves a register as it is.
pub proof fn lemma_shr_zero(v: u64)
    ensures
        v >> 0u64 == v,
{
    assert(v >> 0u64 == v) by (bit_vector);
}

/// The low byte of a register is a byte.
proof fn lemma_low_byte(d: u64)
    ensures
        d & 0xff <= 255,
{
    assert(d & 0xff <= 255) by (bit_vector);
}

proof fn lemma_pack_fits(d: u64, c: u64, s: u64, rb: u64)
    requires
        s < 8,
        rb <= 12,
        d >> s == 0,
        c >> rb == 0,
    ensures
        (d | (c << s)) >> (s + rb) as u64 == 0,
{
    assert((d | (c << s)) >> (s + rb) as u64 == 0) by (bit_vector)
        requires s < 8, rb <= 12, d >> s == 0, c >> rb == 0;
}

proof fn lemma_code_fits(c: i32, rb: i32)
    requires
        0 <= rb <= 12,
        0 <= c < pow2_bits(rb as int),
    ensures
        (c as u64) >> (rb as u64) == 0,
{
    lemma_shl_is_pow2(rb);
    let cu = c as u64;
    let r = rb as u64;
    assert(cu < (1u64 << r) ==> cu >> r == 0) by (bit_vector)
        requires r <= 12;
}

/// Put `code`, `running_bits` wide, into the output; given `FLUSH_OUTPUT`,
/// send on the pending bits and end the data instead. Codes widen by a bit
/// once the running code reaches the width's limit.
fn egif_compress_output(gif: &mut GifFileType, code: i32) -> (r: Result<(), GifError>)
    requires
        io_wf(old(gif).Private.io),
        packer_ready(old(gif).Private.lzw),
        old(gif).writable(),
        code == FLUSH_OUTPUT || 0 <= code < pow2_bits(old(gif).Private.lzw.running_bits as int),
    ensures
        io_wf(final(gif).Private.io),
        packer_ready(final(gif).Private.lzw),
        final(gif).writable(),
        r is Ok,
        same_except_io_lzw(*final(gif), *old(gif)),
        final(gif).input() == old(gif).input(),
        final(gif).Private.lzw == (LzwState {
            buf: final(gif).Private.lzw.buf,
            crnt_shift_dword: final(gif).Private.lzw.crnt_shift_dword,
            crnt_shift_state: final(gif).Private.lzw.crnt_shift_state,
            running_bits: final(gif).Private.lzw.running_bits,
            max_code1: final(gif).Private.lzw.max_code1,
            ..old(gif).Private.lzw
        }),
        pack_view(*final(gif)) == (if code == FLUSH_OUTPUT {
            flush_bits(pack_view(*old(gif)))
        } else {
            put_code(pack_view(*old(gif)), code as int)
        }),
{
    let ghost g0 = *gif;
    let ghost p0 = pack_view(*gif);
    let mut retval: Result<(), GifError> = Ok(());
    if code == FLUSH_OUTPUT {
        let ghost mut j: int = 0;
        assert(low_bytes(p0.dword, 0) =~= Seq::<u8>::empty());
        proof {
            lemma_shr_zero(p0.dword);
        }
        while gif.Private.lzw.crnt_shift_state > 0
            invariant
                io_wf(gif.Private.io),
                gif.Private.lzw.wf(),
                gif.writable(),
                g0 == *old(gif),
                p0 == pack_view(g0),
                packer_ready(g0.Private.lzw),
                same_except_io_lzw(*gif, g0),
                gif.input() == g0.input(),
                gif.Private.lzw == (LzwState {
                    buf: gif.Private.lzw.buf,
                    crnt_shift_dword: gif.Private.lzw.crnt_shift_dword,
                    crnt_shift_state: gif.Private.lzw.crnt_shift_state,
                    ..g0.Private.lzw
                }),
                0 <= j <= 1,
                gif.Private.lzw.crnt_shift_state == p0.nbits - 8 * j,
                j == 1 ==> p0.nbits > 0,
                gif.Private.lzw.crnt_shift_dword == p0.dword >> ((8 * j) as u64),
                (gif.Private.lzw.buf@, gif.output()) == block_put_all(p0.buf, p0.out, low_bytes(p0.dword, j as nat)),
                retval is Ok,
            decreases gif.Private.lzw.crnt_shift_state + 8,
        {
            let d = gif.Private.lzw.crnt_shift_dword;
            proof {
                lemma_low_byte(d);
            }
            let byte = (d & 0xff) as i32;
            let ghost before = *gif;
            if egif_buffered_output(gif, byte).is_err() {
                retval = Err(GifError::EDiskIsFull);
            }
            gif.Private.lzw.crnt_shift_dword = d >> 8;
            gif.Private.lzw.crnt_shift_state = gif.Private.lzw.crnt_shift_state - 8;
            proof {
                let lb = low_bytes(p0.dword, (j + 1) as nat);
                assert(lb.drop_last() =~= low_bytes(p0.dword, j as nat));
                assert(lb.last() == byte as u8);
                lemma_shr_shr(p0.dword, (8 * j) as u64, 8);
                crate::file::lemma_same_except_io_lzw_trans(*gif, before, g0);
                j = j + 1;
            }
        }
        proof {
            let d0 = p0.dword;
            let s0 = p0.nbits as u64;
            assert(d0 >> s0 == 0 && s0 < 8 ==> d0 >> 8u64 == 0) by (bit_vector);
            lemma_shr_zero(d0);
            let dj = gif.Private.lzw.crnt_shift_dword;
            assert(dj == 0);
            lemma_shr_zero(dj);
        }
        gif.Private.lzw.crnt_shift_state = 0;
        if egif_buffered_output(gif, FLUSH_OUTPUT).is_err() {
            retval = Err(GifError::EDiskIsFull);
        }
    } else {
        let sh = gif.Private.lzw.crnt_shift_state;
        let rb = gif.Private.lzw.running_bits;
        proof {
            lemma_code_fits(code, rb);
            lemma_pack_fits(p0.dword, code as u64, sh as u64, rb as u64);
        }
        gif.Private.lzw.crnt_shift_dword = gif.Private.lzw.crnt_shift_dword | ((code as u64) << (sh as u64));
        gif.Private.lzw.crnt_shift_state = sh + rb;
        let ghost v = gif.Private.lzw.crnt_shift_dword;
        let ghost n = (sh + rb) as int;
        let ghost mut j: int = 0;
        assert(low_bytes(v, 0) =~= Seq::<u8>::empty());
        proof {
            lemma_shr_zero(v);
        }
        while gif.Private.lzw.crnt_shift_state >= 8
            invariant
                io_wf(gif.Private.io),
                gif.Private.lzw.wf(),
                gif.writable(),
                g0 == *old(gif),
                p0 == pack_view(g0),
                packer_ready(g0.Private.lzw),
                same_except_io_lzw(*gif, g0),
                gif.input() == g0.input(),
                gif.Private.lzw == (LzwState {
                    buf: gif.Private.lzw.buf,
                    crnt_shift_dword: gif.Private.lzw.crnt_shift_dword,
                    crnt_shift_state: gif.Private.lzw.crnt_shift_state,
                    ..g0.Private.lzw
                }),
                n == p0.nbits + p0.rb,
                0 <= n <= 19,
                v == p0.dword | ((code as u64) << (p0.nbits as u64)),
                0 <= j,
                8 * j <= n,
                gif.Private.lzw.crnt_shift_state == n - 8 * j,
                gif.Private.lzw.crnt_shift_dword == v >> ((8 * j) as u64),
                (gif.Private.lzw.buf@, gif.output()) == block_put_all(p0.buf, p0.out, low_bytes(v, j as nat)),
                retval is Ok,
            decreases gif.Private.lzw.crnt_shift_state,
        {
            let d = gif.Private.lzw.crnt_shift_dword;
            proof {
                lemma_low_byte(d);
            }
            let byte = (d & 0xff) as i32;
            let ghost before = *gif;
            if egif_buffered_output(gif, byte).is_err() {
                retval = Err(GifError::EDiskIsFull);
            }
            gif.Private.lzw.crnt_shift_dword = d >> 8;
            gif.Private.lzw.crnt_shift_state = gif.Private.lzw.crnt_shift_state - 8;
            proof {
                let lb = low_bytes(v, (j + 1) as nat);
                assert(lb.drop_last() =~= low_bytes(v, j as nat));
                assert(lb.last() == byte as u8);
                lemma_shr_shr(v, (8 * j) as u64, 8);
                crate::file::lemma_same_except_io_lzw_trans(*gif, before, g0);
                j = j + 1;
            }
        }
        proof {
            assert(j == n / 8);
            lemma_shr_shr(v, (8 * j) as u64, (n - 8 * j) as u64);
            assert((8 * j + (n - 8 * j)) as u64 == (sh as u64 + rb as u64) as u64);
            assert(gif.Private.lzw.crnt_shift_dword >> (gif.Private.lzw.crnt_shift_state as u64) == 0);
        }
    }
    proof {
        lemma_pow2_bits_bound(12);
    }
    if gif.Private.lzw.running_code >= gif.Private.lzw.max_code1 && code <= 4095 {
        let nb = gif.Private.lzw.running_bits + 1;
        gif.Private.lzw.running_bits = nb;
        gif.Private.lzw.max_code1 = pow2_i32(nb);
    }
    retval
}

/// What the compressor's output depends on: the packer, the code of the
/// string being matched, and the dictionary of strings coded so far.
pub struct EncView {
    pub pack: PackView,
    pub crnt: i32,
    pub dict: Map<u32, i32>,
}

/// The dictionary held by the LZW state (empty without a hash table).
pub open spec fn enc_dict(l: LzwState) -> Map<u32, i32> {
    match l.hash_table {
        Some(ht) => ht@,
        None => Map::empty(),
    }
}

pub open spec fn enc_view(g: GifFileType) -> EncView {
    EncView { pack: pack_view(g), crnt: g.Private.lzw.crnt_code, dict: enc_dict(g.Private.lzw) }
}

/// `o` starts with `out`: writing only appends.
pub open spec fn starts_with(o: Seq<u8>, out: Seq<u8>) -> bool {
    out.len() <= o.len() && o.subrange(0, out.len() as int) == out
}

pub proof fn lemma_starts_with_trans(c: Seq<u8>, b: Seq<u8>, a: Seq<u8>)
    requires
        starts_with(c, b),
        starts_with(b, a),
    ensures
        starts_with(c, a),
{
    assert(c.subrange(0, a.len() as int) =~= c.subrange(0, b.len() as int).subrange(0, a.len() as int));
}

proof fn lemma_starts_with_append(out: Seq<u8>, more: Seq<u8>)
    ensures
        starts_with(out + more, out),
{
    assert((out + more).subrange(0, out.len() as int) =~= out);
}

proof fn lemma_starts_with_refl(out: Seq<u8>)
    ensures
        starts_with(out, out),
{
    assert(out.subrange(0, out.len() as int) =~= out);
}

proof fn lemma_block_put_all_out(buf: Seq<u8>, out: Seq<u8>, bytes: Seq<u8>)
    ensures
        starts_with(block_put_all(buf, out, bytes).1, out),
    decreases bytes.len(),
{
    if bytes.len() == 0 {
        lemma_starts_with_refl(out);
    } else {
        lemma_block_put_all_out(buf, out, bytes.drop_last());
        let (b, o) = block_put_all(buf, out, bytes.drop_last());
        if b[0] == 255 {
            lemma_starts_with_append(o, b);
        } else {
            lemma_starts_with_refl(o);
        }
        lemma_starts_with_trans(block_put(b, o, bytes.last()).1, o, out);
    }
}

/// Placing a code only appends to the output.
pub proof fn lemma_put_code_out(p: PackView, code: int)
    ensures
        starts_with(put_code(p, code).out, p.out),
{
    let v = p.dword | ((code as u64) << (p.nbits as u64));
    let k = (p.nbits + p.rb) / 8;
    lemma_block_put_all_out(p.buf, p.out, low_bytes(v, k as nat));
}

/// Flushing the pending bits only appends to the output.
pub proof fn lemma_flush_bits_out(p: PackView)
    ensures
        starts_with(flush_bits(p).out, p.out),
{
    let k: nat = if p.nbits > 0 { 1 } else { 0 };
    lemma_block_put_all_out(p.buf, p.out, low_bytes(p.dword, k));
    let (b0, o0) = block_put_all(p.buf, p.out, low_bytes(p.dword, k));
    let o1 = if b0[0] != 0 { o0 + b0.subrange(0, b0[0] as int + 1) } else { o0 };
    if b0[0] != 0 {
        lemma_starts_with_append(o0, b0.subrange(0, b0[0] as int + 1));
    } else {
        lemma_starts_with_refl(o0);
    }
    lemma_starts_with_append(o1, seq![0u8]);
    lemma_starts_with_trans(o1 + seq![0u8], o1, o0);
    lemma_starts_with_trans(o1 + seq![0u8], o0, p.out);
}

/// The dictionary key of the string with code `crnt` followed by `p`.
pub open spec fn string_key(crnt: int, p: u8) -> u32 {
    (crnt * 256 + p) as u32
}

/// One pixel of LZW compression: a string the dictionary knows is extended;
/// otherwise the current string's code goes out, `p` starts a new string,
/// and the extended string gets the running code, or, once the codes are
/// used up, a clear code goes out and the dictionary starts over.
pub open spec fn lzw_step(e: EncView, clear: int, eof: int, bpp: int, p: u8) -> EncView {
    let key = string_key(e.crnt as int, p);
    if e.dict.contains_key(key) {
        EncView { crnt: e.dict[key], ..e }
    } else {
        let k1 = put_code(e.pack, e.crnt as int);
        if k1.rc >= LZ_MAX_CODE {
            let k2 = put_code(k1, clear);
            EncView {
                pack: PackView {
                    rc: (eof + 1) as i32,
                    rb: (bpp + 1) as i32,
                    max: pow2_bits(bpp + 1) as i32,
                    ..k2
                },
                crnt: p as i32,
                dict: Map::empty(),
            }
        } else {
            EncView {
                pack: PackView { rc: (k1.rc + 1) as i32, ..k1 },
                crnt: p as i32,
                dict: e.dict.insert(key, k1.rc),
            }
        }
    }
}

/// `lzw_step` over each of `pixels` in turn.
pub open spec fn lzw_steps(e: EncView, clear: int, eof: int, bpp: int, pixels: Seq<u8>) -> EncView
    decreases pixels.len(),
{
    if pixels.len() == 0 {
        e
    } else {
        lzw_step(lzw_steps(e, clear, eof, bpp, pixels.drop_last()), clear, eof, bpp, pixels.last())
    }
}

/// Compressing a line: with no string started, the first pixel starts one;
/// the other pixels go through `lzw_step`; at the end of the image the last
/// string's code and the end code go out and the bits are flushed.
pub open spec fn compress_line_view(e: EncView, clear: int, eof: int, bpp: int, line: Seq<u8>, last: bool) -> EncView {
    let first = e.crnt == FIRST_CODE;
    let e0 = if first { EncView { crnt: line[0] as i32, ..e } } else { e };
    let rest = if first { line.skip(1) } else { line };
    let e1 = lzw_steps(e0, clear, eof, bpp, rest);
    if last {
        EncView { pack: flush_bits(put_code(put_code(e1.pack, e1.crnt as int), eof)), ..e1 }
    } else {
        e1
    }
}

/// Compressing pixels only appends to the output.
pub proof fn lemma_lzw_steps_out(e: EncView, clear: int, eof: int, bpp: int, pixels: Seq<u8>)
    ensures
        starts_with(lzw_steps(e, clear, eof, bpp, pixels).pack.out, e.pack.out),
    decreases pixels.len(),
{
    if pixels.len() == 0 {
        lemma_starts_with_refl(e.pack.out);
    } else {
        lemma_lzw_steps_out(e, clear, eof, bpp, pixels.drop_last());
        let e1 = lzw_steps(e, clear, eof, bpp, pixels.drop_last());
        let key = string_key(e1.crnt as int, pixels.last());
        if e1.dict.contains_key(key) {
        } else {
            lemma_put_code_out(e1.pack, e1.crnt as int);
            let k1 = put_code(e1.pack, e1.crnt as int);
            if k1.rc >= LZ_MAX_CODE {
                lemma_put_code_out(k1, clear);
                lemma_starts_with_trans(put_code(k1, clear).out, k1.out, e1.pack.out);
                lemma_starts_with_trans(put_code(k1, clear).out, e1.pack.out, e.pack.out);
            } else {
                lemma_starts_with_trans(k1.out, e1.pack.out, e.pack.out);
            }
        }
    }
}

/// Compressing a line only appends to the output.
pub proof fn lemma_compress_line_out(e: EncView, clear: int, eof: int, bpp: int, line: Seq<u8>, last: bool)
    ensures
        starts_with(compress_line_view(e, clear, eof, bpp, line, last).pack.out, e.pack.out),
{
    let first = e.crnt == FIRST_CODE;
    let e0 = if first { EncView { crnt: line[0] as i32, ..e } } else { e };
    let rest = if first { line.skip(1) } else { line };
    lemma_lzw_steps_out(e0, clear, eof, bpp, rest);
    let e1 = lzw_steps(e0, clear, eof, bpp, rest);
    if last {
        let p1 = put_code(e1.pack, e1.crnt as int);
        let p2 = put_code(p1, eof);
        lemma_put_code_out(e1.pack, e1.crnt as int);
        lemma_put_code_out(p1, eof);
        lemma_flush_bits_out(p2);
        lemma_starts_with_trans(p2.out, p1.out, e1.pack.out);
        lemma_starts_with_trans(flush_bits(p2).out, p2.out, e1.pack.out);
        lemma_starts_with_trans(flush_bits(p2).out, e1.pack.out, e.pack.out);
    }
}

/// Stepping through `a + b` is stepping through `a`, then through `b`.
pub proof fn lemma_lzw_steps_concat(e: EncView, clear: int, eof: int, bpp: int, a: Seq<u8>, b: Seq<u8>)
    ensures
        lzw_steps(e, clear, eof, bpp, a + b) == lzw_steps(lzw_steps(e, clear, eof, bpp, a), clear, eof, bpp, b),
    decreases b.len(),
{
    if b.len() == 0 {
        assert(a + b =~= a);
    } else {
        lemma_lzw_steps_concat(e, clear, eof, bpp, a, b.drop_last());
        assert((a + b).drop_last() =~= a + b.drop_last());
        assert((a + b).last() == b.last());
    }
}

/// Compressing a line `a` and then a line `b` is compressing the line
/// `a + b` at once, when `a` is not empty and leaves a string started.
pub proof fn lemma_compress_concat(e: EncView, clear: int, eof: int, bpp: int, a: Seq<u8>, b: Seq<u8>, last: bool)
    requires
        a.len() > 0,
        compress_line_view(e, clear, eof, bpp, a, false).crnt != FIRST_CODE,
    ensures
        compress_line_view(compress_line_view(e, clear, eof, bpp, a, false), clear, eof, bpp, b, last)
            == compress_line_view(e, clear, eof, bpp, a + b, last),
{
    let first = e.crnt == FIRST_CODE;
    let e0 = if first { EncView { crnt: a[0] as i32, ..e } } else { e };
    let ra = if first { a.skip(1) } else { a };
    let rab = if first { (a + b).skip(1) } else { a + b };
    assert(rab =~= ra + b);
    assert((a + b)[0] == a[0]);
    lemma_lzw_steps_concat(e0, clear, eof, bpp, ra, b);
}

/// The state inside a line's compression: the packer's ranges, a set-up
/// compression, a current code below the running code, and the hash table,
/// held apart, with codes below the running code.
pub open spec fn line_state(l: LzwState, ht: GifHashTableType, crnt: i32) -> bool {
    &&& packer_ready(l)
    &&& l.running_code <= l.max_code1
    &&& 2 <= l.bits_per_pixel <= 9
    &&& l.clear_code == pow2_bits(l.bits_per_pixel as int)
    &&& l.eof_code == l.clear_code + 1
    &&& l.eof_code < l.running_code
    &&& l.bits_per_pixel + 1 <= l.running_bits
    &&& 0 <= crnt < l.running_code
    &&& table_below(ht, l.running_code as int)
}

proof fn lemma_line_state_fits(l: LzwState, ht: GifHashTableType, crnt: i32)
    requires
        line_state(l, ht, crnt),
    ensures
        l.running_bits >= 3,
        l.max_code1 == pow2_bits(l.running_bits as int),
        crnt < pow2_bits(l.running_bits as int),
        l.clear_code < pow2_bits(l.running_bits as int),
        l.eof_code < pow2_bits(l.running_bits as int),
        2 * l.clear_code == pow2_bits(l.bits_per_pixel as int + 1),
        4 <= l.clear_code <= 512,
{
    lemma_pow2_bits_mono(l.bits_per_pixel as int + 1, l.running_bits as int);
    lemma_pow2_bits_mono(2, l.bits_per_pixel as int);
    lemma_pow2_bits_mono(l.bits_per_pixel as int, 9);
    lemma_pow2_bits_bound(l.bits_per_pixel as int + 1);
    reveal_with_fuel(pow2_bits, 10);
}

/// Compress one pixel: see `lzw_step`.
fn compress_pixel(gif: &mut GifFileType, ht: &mut GifHashTableType, crnt: i32, pixel: u8) -> (r: Result<i32, GifError>)
    requires
        io_wf(old(gif).Private.io),
        old(gif).writable(),
        line_state(old(gif).Private.lzw, *old(ht), crnt),
        pixel < old(gif).Private.lzw.clear_code,
    ensures
        io_wf(final(gif).Private.io),
        final(gif).writable(),
        r is Ok,
        r matches Ok(c) ==> line_state(final(gif).Private.lzw, *final(ht), c),
        same_except_io_lzw(*final(gif), *old(gif)),
        final(gif).input() == old(gif).input(),
        final(gif).Private.lzw == (LzwState {
            buf: final(gif).Private.lzw.buf,
            crnt_shift_dword: final(gif).Private.lzw.crnt_shift_dword,
            crnt_shift_state: final(gif).Private.lzw.crnt_shift_state,
            running_bits: final(gif).Private.lzw.running_bits,
            max_code1: final(gif).Private.lzw.max_code1,
            running_code: final(gif).Private.lzw.running_code,
            ..old(gif).Private.lzw
        }),
        r matches Ok(c) ==> (EncView { pack: pack_view(*final(gif)), crnt: c, dict: final(ht)@ })
            == lzw_step(
                EncView { pack: pack_view(*old(gif)), crnt: crnt, dict: old(ht)@ },
                old(gif).Private.lzw.clear_code as int,
                old(gif).Private.lzw.eof_code as int,
                old(gif).Private.lzw.bits_per_pixel as int,
                pixel,
            ),
{
    let ghost g0 = *gif;
    proof {
        lemma_line_state_fits(gif.Private.lzw, *ht, crnt);
        lemma_pow2_bits_bound(12);
        let c = crnt as u32;
        assert(c < 4096 ==> (c << 8u32) == c * 256) by (bit_vector);
    }
    let new_key: u32 = ((crnt as u32) << 8) + pixel as u32;
    assert(new_key == string_key(crnt as int, pixel));
    match ht.exists_key(new_key) {
        Some(new_code) => Ok(new_code),
        None => {
            if let Err(e) = egif_compress_output(gif, crnt) {
                return Err(e);
            }
            let ghost g1 = *gif;
            proof {
                lemma_pow2_bits_bound(g0.Private.lzw.running_bits as int + 1);
                assert(gif.Private.lzw.running_code < gif.Private.lzw.max_code1);
            }
            if gif.Private.lzw.running_code >= LZ_MAX_CODE as i32 {
                let clear_code = gif.Private.lzw.clear_code;
                proof {
                    lemma_pow2_bits_mono(g0.Private.lzw.running_bits as int, gif.Private.lzw.running_bits as int);
                }
                if let Err(e) = egif_compress_output(gif, clear_code) {
                    return Err(e);
                }
                proof {
                    crate::file::lemma_same_except_io_lzw_trans(*gif, g1, g0);
                }
                let nb = gif.Private.lzw.bits_per_pixel + 1;
                gif.Private.lzw.running_code = gif.Private.lzw.eof_code + 1;
                gif.Private.lzw.running_bits = nb;
                gif.Private.lzw.max_code1 = pow2_i32(nb);
                ht.clear();
                Ok(pixel as i32)
            } else {
                let rc = gif.Private.lzw.running_code;
                proof {
                    let cu = crnt as u32;
                    let pu = pixel as u32;
                    assert(cu < 4094 && pu < 256 ==> cu * 256 + pu < 0xFFFFF);
                    let ru = rc as u32;
                    assert(ru < 4096 ==> ru & 0x0FFF == ru) by (bit_vector);
                }
                ht.insert(new_key, rc);
                gif.Private.lzw.running_code = rc + 1;
                proof {
                    assert forall|k: u32| #[trigger] ht@.contains_key(k) implies 0 <= ht@[k] < rc + 1 by {
                        if k != new_key {
                            assert(old(ht)@.contains_key(k));
                        }
                    }
                }
                Ok(pixel as i32)
            }
        },
    }
}

/// Compress a line of pixels (see `compress_line_view`); the end of the
/// image is when no pixels are owed any more.
pub(crate) fn egif_compress_line(gif: &mut GifFileType, line: &[u8]) -> (r: Result<(), GifError>)
    requires
        io_wf(old(gif).Private.io),
        old(gif).writable(),
        encoder_ranges(old(gif).Private.lzw),
        line@.len() > 0 || old(gif).Private.pixel_count > 0 ==> compressing(old(gif).Private.lzw),
        line@.len() == 0 ==> old(gif).Private.lzw.crnt_code != FIRST_CODE,
        forall|i: int| 0 <= i < line@.len() ==> line@[i] < old(gif).Private.lzw.clear_code,
    ensures
        io_wf(final(gif).Private.io),
        final(gif).writable(),
        r is Ok,
        encoder_ready(final(gif).Private),
        final(gif).Private.lzw.crnt_code != FIRST_CODE,
        same_except_io_lzw(*final(gif), *old(gif)),
        final(gif).input() == old(gif).input(),
        final(gif).Private.lzw == (LzwState {
            buf: final(gif).Private.lzw.buf,
            crnt_shift_dword: final(gif).Private.lzw.crnt_shift_dword,
            crnt_shift_state: final(gif).Private.lzw.crnt_shift_state,
            running_bits: final(gif).Private.lzw.running_bits,
            max_code1: final(gif).Private.lzw.max_code1,
            running_code: final(gif).Private.lzw.running_code,
            crnt_code: final(gif).Private.lzw.crnt_code,
            hash_table: final(gif).Private.lzw.hash_table,
            ..old(gif).Private.lzw
        }),
        enc_view(*final(gif)) == compress_line_view(
            enc_view(*old(gif)),
            old(gif).Private.lzw.clear_code as int,
            old(gif).Private.lzw.eof_code as int,
            old(gif).Private.lzw.bits_per_pixel as int,
            line@,
            old(gif).Private.pixel_count == 0,
        ),
{
    let ghost g0 = *gif;
    let ghost l0 = gif.Private.lzw;
    let ghost clear = l0.clear_code as int;
    let ghost eof = l0.eof_code as int;
    let ghost bpp = l0.bits_per_pixel as int;
    let ghost e_start = enc_view(*gif);
    let ghost first = l0.crnt_code == FIRST_CODE;
    let ghost e0 = if first { EncView { crnt: line@[0] as i32, ..e_start } } else { e_start };
    let ghost rest = if first { line@.skip(1) } else { line@ };
    let mut crnt_code: i32 = gif.Private.lzw.crnt_code;
    if line.len() > 0 {
        let mut i: usize = 0;
        if crnt_code == FIRST_CODE {
            crnt_code = line[0] as i32;
            i = 1;
        }
        let mut ht = gif.Private.lzw.hash_table.take().unwrap();
        let ghost start = i as int;
        let ghost g1 = *gif;
        proof {
            assert(line@.subrange(start, start) =~= Seq::<u8>::empty());
        }
        while i < line.len()
            invariant
                io_wf(gif.Private.io),
                gif.writable(),
                line_state(gif.Private.lzw, ht, crnt_code),
                g0 == *old(gif),
                l0 == g0.Private.lzw,
                clear == l0.clear_code,
                eof == l0.eof_code,
                bpp == l0.bits_per_pixel,
                same_except_io_lzw(*gif, g0),
                gif.input() == g0.input(),
                gif.Private.lzw == (LzwState {
                    buf: gif.Private.lzw.buf,
                    crnt_shift_dword: gif.Private.lzw.crnt_shift_dword,
                    crnt_shift_state: gif.Private.lzw.crnt_shift_state,
                    running_bits: gif.Private.lzw.running_bits,
                    max_code1: gif.Private.lzw.max_code1,
                    running_code: gif.Private.lzw.running_code,
                    hash_table: None,
                    ..l0
                }),
                0 <= start <= i <= line@.len(),
                (EncView { pack: pack_view(*gif), crnt: crnt_code, dict: ht@ })
                    == lzw_steps(e0, clear, eof, bpp, line@.subrange(start, i as int)),
                forall|k: int| 0 <= k < line@.len() ==> line@[k] < clear,
            decreases line@.len() - i,
        {
            let pixel = line[i];
            let ghost before = *gif;
            match compress_pixel(gif, &mut ht, crnt_code, pixel) {
                Ok(c) => {
                    crnt_code = c;
                },
                Err(e) => {
                    gif.Private.lzw.hash_table = Some(ht);
                    return Err(e);
                },
            }
            i = i + 1;
            proof {
                let s = line@.subrange(start, i as int);
                assert(s.drop_last() =~= line@.subrange(start, i - 1));
                assert(s.last() == pixel);
                crate::file::lemma_same_except_io_lzw_trans(*gif, before, g0);
            }
        }
        proof {
            assert(line@.subrange(start, line@.len() as int) =~= rest);
        }
        gif.Private.lzw.hash_table = Some(ht);
    } else {
        proof {
            assert(line@ =~= Seq::<u8>::empty());
        }
    }
    gif.Private.lzw.crnt_code = crnt_code;
    let ghost g2 = *gif;
    let ghost e1 = lzw_steps(e0, clear, eof, bpp, rest);
    proof {
        lemma_pow2_bits_mono(gif.Private.lzw.running_bits as int, 12);
        lemma_pow2_bits_bound(12);
        assert(enc_view(g2) == e1);
        assert(crnt_code != FLUSH_OUTPUT);
        assert(gif.Private.lzw.eof_code != FLUSH_OUTPUT);
    }
    if gif.Private.pixel_count == 0 {
        if let Err(e) = egif_compress_output(gif, crnt_code) {
            return Err(e);
        }
        let ghost g3 = *gif;
        let eof_code = gif.Private.lzw.eof_code;
        proof {
            lemma_pow2_bits_mono(g2.Private.lzw.running_bits as int, gif.Private.lzw.running_bits as int);
        }
        if let Err(e) = egif_compress_output(gif, eof_code) {
            return Err(e);
        }
        let ghost g4 = *gif;
        proof {
            lemma_pow2_bits_mono(g3.Private.lzw.running_bits as int, gif.Private.lzw.running_bits as int);
            crate::file::lemma_same_except_io_lzw_trans(g4, g3, g2);
        }
        if let Err(e) = egif_compress_output(gif, FLUSH_OUTPUT) {
            return Err(e);
        }
        proof {
            crate::file::lemma_same_except_io_lzw_trans(*gif, g4, g2);
            assert(pack_view(g3) == put_code(e1.pack, e1.crnt as int));
            assert(pack_view(g4) == put_code(pack_view(g3), eof));
            assert(enc_view(*gif) == EncView { pack: flush_bits(pack_view(g4)), ..e1 });
        }
    }
    proof {
        crate::file::lemma_same_except_io_lzw_trans(*gif, g2, g0);
    }
    Ok(())
}

/// The bits per pixel of the color map an image is coded with: its own,
/// else the screen's.
pub open spec fn coding_bpp(g: GifFileType) -> Option<i32> {
    match g.Image.ColorMap {
        Some(m) => Some(m.BitsPerPixel),
        None => match g.SColorMap {
            Some(m) => Some(m.BitsPerPixel),
            None => None,
        },
    }
}

/// The LZW code size for a pixel width: at least 2.
pub open spec fn code_size(bpp: i32) -> i32 {
    if bpp < 2 { 2 } else { bpp }
}

/// The packer at the start of an image coded with code size `b`: no pending
/// bits, codes one bit wider than pixels, the first free code after the
/// clear and end codes, an empty sub-block, and the code size written out.
pub open spec fn fresh_packer(buf: Seq<u8>, out: Seq<u8>, b: int) -> PackView {
    PackView {
        dword: 0,
        nbits: 0,
        rb: (b + 1) as i32,
        max: pow2_bits(b + 1) as i32,
        rc: (pow2_bits(b) + 2) as i32,
        buf: buf.update(0, 0),
        out: out.push(b as u8),
    }
}

/// Start compressing an image: write the code size, reset the compressor
/// and its dictionary, and put out a clear code.
pub(crate) fn egif_setup_compress(gif: &mut GifFileType) -> (r: Result<(), GifError>)
    requires
        io_wf(old(gif).Private.io),
        old(gif).Private.lzw.wf(),
        old(gif).writable(),
        coding_bpp(*old(gif)) matches Some(b) ==> b <= 9,
    ensures
        io_wf(final(gif).Private.io),
        final(gif).writable(),
        final(gif).Private.lzw.wf(),
        same_except_io_lzw(*final(gif), *old(gif)),
        final(gif).input() == old(gif).input(),
        r is Err <==> coding_bpp(*old(gif)) is None,
        r is Err ==> r == Err::<(), GifError>(GifError::ENoColorMap) && *final(gif) == *old(gif),
        r is Ok ==> ({
            let b = code_size(coding_bpp(*old(gif))->0) as int;
            let l = final(gif).Private.lzw;
            &&& l.bits_per_pixel == b
            &&& l.clear_code == pow2_bits(b)
            &&& l.eof_code == pow2_bits(b) + 1
            &&& l.crnt_code == FIRST_CODE
            &&& l.hash_table is Some
            &&& enc_dict(l) == Map::<u32, i32>::empty()
            &&& compressing(l)
            &&& encoder_ranges(l)
            &&& pack_view(*final(gif)) == put_code(fresh_packer(old(gif).Private.lzw.buf@, old(gif).output(), b), pow2_bits(b))
            &&& l == (LzwState {
                buf: l.buf,
                bits_per_pixel: l.bits_per_pixel,
                clear_code: l.clear_code,
                eof_code: l.eof_code,
                running_code: l.running_code,
                running_bits: l.running_bits,
                max_code1: l.max_code1,
                crnt_code: l.crnt_code,
                crnt_shift_state: l.crnt_shift_state,
                crnt_shift_dword: l.crnt_shift_dword,
                hash_table: l.hash_table,
                ..old(gif).Private.lzw
            })
        }),
{
    let ghost g0 = *gif;
    let bits_per_pixel = match &gif.Image.ColorMap {
        Some(cm) => cm.BitsPerPixel,
        None => match &gif.SColorMap {
            Some(cm) => cm.BitsPerPixel,
            None => return Err(GifError::ENoColorMap),
        },
    };
    let bits_per_pixel = if bits_per_pixel < 2 { 2 } else { bits_per_pixel };
    let size_byte: [u8; 1] = [bits_per_pixel as u8];
    if let Err(e) = gif.write_exact(&size_byte) {
        return Err(e);
    }
    let ghost g1 = *gif;
    proof {
        assert(g0.output() + size_byte@ =~= g0.output().push(bits_per_pixel as u8));
        lemma_pow2_bits_bound(bits_per_pixel as int + 1);
        lemma_pow2_bits_mono(2, bits_per_pixel as int);
        lemma_pow2_bits_mono(bits_per_pixel as int, 9);
        reveal_with_fuel(pow2_bits, 10);
    }
    let clear = pow2_i32(bits_per_pixel);
    let running_bits = bits_per_pixel + 1;
    gif.Private.lzw.buf.set(0, 0);
    gif.Private.lzw.bits_per_pixel = bits_per_pixel;
    gif.Private.lzw.clear_code = clear;
    gif.Private.lzw.eof_code = clear + 1;
    gif.Private.lzw.running_code = clear + 2;
    gif.Private.lzw.running_bits = running_bits;
    gif.Private.lzw.max_code1 = pow2_i32(running_bits);
    gif.Private.lzw.crnt_code = FIRST_CODE;
    gif.Private.lzw.crnt_shift_state = 0;
    gif.Private.lzw.crnt_shift_dword = 0;
    let mut ht = match gif.Private.lzw.hash_table.take() {
        Some(h) => h,
        None => GifHashTableType::new(),
    };
    ht.clear();
    gif.Private.lzw.hash_table = Some(ht);
    proof {
        lemma_shr_zero(0);
        assert(pack_view(*gif) == fresh_packer(g0.Private.lzw.buf@, g0.output(), bits_per_pixel as int));
    }
    let ghost g2 = *gif;
    if egif_compress_output(gif, clear).is_err() {
        return Err(GifError::EDiskIsFull);
    }
    proof {
        crate::file::lemma_same_except_io_lzw_trans(*gif, g2, g0);
    }
    Ok(())
}

/// Buffer one data byte, or, given `FLUSH_OUTPUT`, write out the buffered
/// sub-block and the empty one that ends the data.
fn egif_buffered_output(gif: &mut GifFileType, c: i32) -> (r: Result<(), GifError>)
    requires
        io_wf(old(gif).Private.io),
        old(gif).Private.lzw.wf(),
        old(gif).writable(),
        0 <= c <= 255 || c == FLUSH_OUTPUT,
    ensures
        io_wf(final(gif).Private.io),
        final(gif).Private.lzw.wf(),
        final(gif).writable(),
        r is Ok,
        same_except_io_lzw(*final(gif), *old(gif)),
        final(gif).Private.lzw == (LzwState { buf: final(gif).Private.lzw.buf, ..old(gif).Private.lzw }),
        final(gif).input() == old(gif).input(),
        c == FLUSH_OUTPUT ==> (final(gif).Private.lzw.buf@, final(gif).output())
            == block_flush(old(gif).Private.lzw.buf@, old(gif).output()),
        c != FLUSH_OUTPUT ==> (final(gif).Private.lzw.buf@, final(gif).output())
            == block_put(old(gif).Private.lzw.buf@, old(gif).output(), c as u8),
{
    let ghost g0 = *gif;
    if c == FLUSH_OUTPUT {
        let count = gif.Private.lzw.buf[0] as usize;
        if count != 0 {
            let block = copy_prefix_of(&gif.Private.lzw.buf, count + 1);
            let written = gif.write(block.as_slice());
            if written != count + 1 {
                return Err(GifError::EWriteFailed);
            }
            proof {
                assert(block@.take(written as int) =~= block@);
            }
        }
        gif.Private.lzw.buf.set(0, 0);
        let zero: [u8; 1] = [0u8];
        let written = gif.write(&zero);
        if written != 1 {
            return Err(GifError::EWriteFailed);
        }
        proof {
            assert(zero@.take(1) =~= seq![0u8]);
        }
    } else {
        if gif.Private.lzw.buf[0] == 255 {
            let block = copy_prefix_of(&gif.Private.lzw.buf, 256);
            let written = gif.write(block.as_slice());
            if written != 256 {
                return Err(GifError::EWriteFailed);
            }
            proof {
                assert(block@.take(written as int) =~= block@);
                assert(block@ =~= g0.Private.lzw.buf@);
            }
            gif.Private.lzw.buf.set(0, 0);
        }
        let n = gif.Private.lzw.buf[0] + 1;
        gif.Private.lzw.buf.set(0, n);
        gif.Private.lzw.buf.set(n as usize, c as u8);
    }
    Ok(())
}

/// The first `n` bytes of `v`.
fn copy_prefix_of(v: &Vec<u8>, n: usize) -> (r: Vec<u8>)
    requires
        n <= v@.len(),
    ensures
        r@ == v@.subrange(0, n as int),
{
    let mut r: Vec<u8> = Vec::new();
    let mut i: usize = 0;
    while i < n
        invariant
            i <= n <= v@.len(),
            r@ == v@.subrange(0, i as int),
        decreases n - i,
    {
        r.push(v[i]);
        i = i + 1;
        assert(r@ =~= v@.subrange(0, i as int));
    }
    r
}


/// The mask that keeps a pixel within `bits_per_pixel` bits.
pub(crate) fn get_code_mask(bits_per_pixel: i32) -> (r: u8)
    requires
        0 <= bits_per_pixel <= 8,
    ensures
        r == pow2_bits(bits_per_pixel as int) - 1,
{
    proof {
        lemma_pow2_bits_mono(bits_per_pixel as int, 8);
        lemma_pow2_bits_bound(8);
    }
    (pow2_i32(bits_per_pixel) - 1) as u8
}

} // verus!

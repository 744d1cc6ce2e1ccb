//! What the compressor's bit packer writes, the decompressor's code reader
//! reads back: codes of a fixed width, put one after another into bytes,
//! lowest bits first, come back out in the same order.
use vstd::prelude::*;
use vstd::arithmetic::power2::{pow2, lemma_pow2_adds, lemma_pow2_pos};
use vstd::arithmetic::div_mod::{
    lemma_fundamental_div_mod_converse, lemma_mod_breakdown, lemma_div_multiples_vanish_fancy, lemma_mod_mod,
    lemma_hoist_over_denominator, lemma_div_denominator,
};
use crate::decoder_lzw::{fill_bits, read_code, bytes_needed, DecView, sub_block_data};
use crate::encoder_lzw::{low_bytes, block_put_all, put_code, flush_bits, PackView};

verus! {

/// The value of the bytes `s`, eight bits each, lowest byte first.
pub open spec fn le_value(s: Seq<u8>) -> nat
    decreases s.len(),
{
    if s.len() == 0 {
        0
    } else {
        le_value(s.drop_last()) + s.last() as nat * pow2((8 * (s.len() - 1)) as nat)
    }
}

/// `x == q * 2^s + r` with `r` below `2^s`: `q` and `r` are the quotient and
/// remainder of `x` by `2^s`.
proof fn lemma_split_at(x: int, q: int, r: int, s: nat)
    requires
        0 <= r < pow2(s),
        x == q * pow2(s) + r,
    ensures
        x / pow2(s) as int == q,
        x % pow2(s) as int == r,
{
    lemma_pow2_pos(s);
    lemma_fundamental_div_mod_converse(x, pow2(s) as int, q, r);
}

/// The value of `a + b` is that of `a` plus that of `b` above it.
proof fn lemma_le_value_concat(a: Seq<u8>, b: Seq<u8>)
    ensures
        le_value(a + b) == le_value(a) + le_value(b) * pow2((8 * a.len()) as nat),
    decreases b.len(),
{
    if b.len() == 0 {
        assert(a + b =~= a);
    } else {
        let ab = a + b;
        assert(ab.drop_last() =~= a + b.drop_last());
        assert(ab.last() == b.last());
        lemma_le_value_concat(a, b.drop_last());
        let pa = pow2((8 * a.len()) as nat);
        let pb = pow2((8 * (b.len() - 1)) as nat);
        lemma_pow2_adds((8 * a.len()) as nat, (8 * (b.len() - 1)) as nat);
        assert((8 * (ab.len() - 1)) as nat == (8 * a.len()) as nat + (8 * (b.len() - 1)) as nat);
        let lb0 = le_value(b.drop_last());
        let x = b.last() as nat;
        assert(le_value(b) == lb0 + x * pb);
        assert((lb0 + x * pb) * pa == lb0 * pa + x * (pa * pb)) by (nonlinear_arith);
    }
}

/// The value of `s` is below `2^(8 * s.len())`.
proof fn lemma_le_value_bound(s: Seq<u8>)
    ensures
        le_value(s) < pow2((8 * s.len()) as nat),
    decreases s.len(),
{
    if s.len() == 0 {
        assert(pow2(0) == 1) by {
            vstd::arithmetic::power2::lemma2_to64();
        }
    } else {
        lemma_le_value_bound(s.drop_last());
        let p = pow2((8 * (s.len() - 1)) as nat);
        lemma_pow2_adds((8 * (s.len() - 1)) as nat, 8);
        assert((8 * s.len()) as nat == (8 * (s.len() - 1)) as nat + 8);
        assert(pow2(8) == 256) by {
            vstd::arithmetic::power2::lemma2_to64();
        }
        let x = s.last() as nat;
        let l0 = le_value(s.drop_last());
        assert(l0 + x * p < 256 * p) by (nonlinear_arith)
            requires l0 < p, x <= 255;
    }
}

/// The first `t` bytes of `s` hold its value modulo `2^(8t)`, the rest its
/// value divided by that.
proof fn lemma_le_value_take(s: Seq<u8>, t: int)
    requires
        0 <= t <= s.len(),
    ensures
        le_value(s.take(t)) == le_value(s) as int % pow2((8 * t) as nat) as int,
        le_value(s.skip(t)) == le_value(s) as int / pow2((8 * t) as nat) as int,
{
    assert(s =~= s.take(t) + s.skip(t));
    lemma_le_value_concat(s.take(t), s.skip(t));
    lemma_le_value_bound(s.take(t));
    lemma_split_at(le_value(s) as int, le_value(s.skip(t)) as int, le_value(s.take(t)) as int, (8 * t) as nat);
}

/// `2^s` as a shift, for `s` below 64.
proof fn lemma_one_shl(s: u64)
    requires
        s < 64,
    ensures
        (1u64 << s) as nat == pow2(s as nat),
        pow2(s as nat) <= 0x8000_0000_0000_0000,
{
    vstd::bits::lemma_u64_pow2_no_overflow(s as nat);
    if s < 63 {
        vstd::arithmetic::power2::lemma_pow2_strictly_increases(s as nat, 63);
    }
    assert(pow2(63) == 0x8000_0000_0000_0000) by {
        vstd::arithmetic::power2::lemma2_to64_rest();
    }
    vstd::bits::lemma_u64_shl_is_mul(1, s);
}

/// Placing `c` above the `s` bits of `d` adds `c * 2^s` to it.
proof fn lemma_or_shifted(d: u64, c: u64, s: u64)
    requires
        s < 64,
        d < pow2(s as nat),
        c * pow2(s as nat) <= u64::MAX,
    ensures
        (d | (c << s)) as int == d + c * pow2(s as nat),
{
    lemma_one_shl(s);
    vstd::bits::lemma_u64_shl_is_mul(c, s);
    assert(d < (1u64 << s) ==> (d | (c << s)) == d + (c << s)) by (bit_vector)
        requires s < 64;
}

/// The low `w` bits of `f`, by mask, are `f` modulo `2^w`.
proof fn lemma_mask(f: u64, w: u64)
    requires
        w < 64,
    ensures
        (f & ((1u64 << w) - 1) as u64) as int == f as int % pow2(w as nat) as int,
        (f >> w) as int == f as int / pow2(w as nat) as int,
{
    lemma_one_shl(w);
    lemma_pow2_pos(w as nat);
    vstd::bits::lemma_u64_low_bits_mask_is_mod(f, w as nat);
    assert(vstd::bits::low_bits_mask(w as nat) == pow2(w as nat) - 1);
    vstd::bits::lemma_u64_shr_is_div(f, w);
}

/// The lowest `k` bytes of `v` hold its value modulo `2^(8k)`.
proof fn lemma_low_bytes(v: u64, k: nat)
    requires
        k <= 8,
    ensures
        le_value(low_bytes(v, k)) == v as int % pow2(8 * k) as int,
    decreases k,
{
    lemma_pow2_pos(8 * k);
    if k == 0 {
        assert(pow2(0) == 1) by {
            vstd::arithmetic::power2::lemma2_to64();
        }
        assert(v as int % 1 == 0);
    } else {
        let k1 = (k - 1) as nat;
        lemma_low_bytes(v, k1);
        let s = low_bytes(v, k);
        assert(s.drop_last() =~= low_bytes(v, k1));
        let sh = (8 * k1) as u64;
        let byte = ((v >> sh) & 0xff) as u8;
        assert(s.last() == byte);
        lemma_mask(v >> sh, 8);
        assert(1u64 << 8u64 == 256) by (bit_vector);
        assert(((v >> sh) & 0xff) == ((v >> sh) & (((1u64 << 8u64) - 1) as u64)));
        assert(pow2(8) == 256) by {
            vstd::arithmetic::power2::lemma2_to64();
        }
        lemma_mask(v, sh);
        let p = pow2(8 * k1);
        lemma_pow2_pos(8 * k1);
        lemma_pow2_adds(8 * k1, 8);
        assert(8 * k == 8 * k1 + 8);
        // v % (p * 256) == p * ((v / p) % 256) + v % p
        lemma_mod_breakdown(v as int, p as int, 256);
        assert(byte as int == (v as int / p as int) % 256);
    }
}

proof fn lemma_le_value_single(b: u8)
    ensures
        le_value(seq![b]) == b,
{
    let t = seq![b];
    assert(t.len() == 1);
    assert(t.last() == b);
    assert(t.drop_last() =~= Seq::<u8>::empty());
    assert(le_value(t.drop_last()) == 0);
    assert(pow2(0) == 1) by {
        vstd::arithmetic::power2::lemma2_to64();
    }
    assert((8 * (t.len() - 1)) as nat == 0);
    assert(pow2((8 * (t.len() - 1)) as nat) == 1);
    assert(le_value(t) == le_value(t.drop_last()) + t.last() as nat * pow2((8 * (t.len() - 1)) as nat));
    assert(le_value(t) == b as nat);
}

/// Bytes placed into the bit register above its `s` bits add their value
/// times `2^s`.
proof fn lemma_fill_bits(d: u64, s: int, bytes: Seq<u8>)
    requires
        0 <= s,
        s + 8 * bytes.len() <= 64,
        d < pow2(s as nat),
    ensures
        fill_bits(d, s, bytes) as int == d + le_value(bytes) * pow2(s as nat),
    decreases bytes.len(),
{
    if bytes.len() > 0 {
        let b0 = bytes[0];
        lemma_pow2_adds(s as nat, 8);
        assert(pow2(8) == 256) by {
            vstd::arithmetic::power2::lemma2_to64();
        }
        lemma_one_shl(s as u64);
        assert((b0 as u64) * pow2(s as nat) <= u64::MAX) by {
            if s < 56 {
                vstd::arithmetic::power2::lemma_pow2_strictly_increases(s as nat, 56);
            }
            assert(pow2(56) == 0x100_0000_0000_0000) by {
                vstd::arithmetic::power2::lemma2_to64_rest();
            }
            assert((b0 as u64) * pow2(s as nat) <= 255 * pow2(s as nat)) by (nonlinear_arith)
                requires b0 <= 255;
        }
        lemma_or_shifted(d, b0 as u64, s as u64);
        let d1 = d | ((b0 as u64) << (s as u64));
        assert(d1 < pow2((s + 8) as nat)) by (nonlinear_arith)
            requires d1 == d + b0 * pow2(s as nat), d < pow2(s as nat), b0 <= 255,
                pow2((s + 8) as nat) == pow2(s as nat) * 256;
        lemma_fill_bits(d1, s + 8, bytes.skip(1));
        assert(bytes =~= seq![b0] + bytes.skip(1));
        lemma_le_value_concat(seq![b0], bytes.skip(1));
        lemma_le_value_single(b0);
        let r = le_value(bytes.skip(1));
        assert((b0 + r * 256) * pow2(s as nat) == b0 * pow2(s as nat) + r * (pow2(s as nat) * 256))
            by (nonlinear_arith);
    } else {
        assert(le_value(bytes) == 0);
    }
}

/// The codes `cs`, `w` bits each, lowest first, as one number.
pub open spec fn codes_value(cs: Seq<int>, w: nat) -> int
    decreases cs.len(),
{
    if cs.len() == 0 {
        0
    } else {
        codes_value(cs.drop_last(), w) + cs.last() * pow2(w * (cs.len() - 1) as nat)
    }
}

/// Each code is below `2^w`.
pub open spec fn codes_fit(cs: Seq<int>, w: nat) -> bool {
    forall|i: int| 0 <= i < cs.len() ==> 0 <= #[trigger] cs[i] < pow2(w)
}

proof fn lemma_codes_value_bound(cs: Seq<int>, w: nat)
    requires
        codes_fit(cs, w),
    ensures
        0 <= codes_value(cs, w) < pow2(w * cs.len()),
    decreases cs.len(),
{
    if cs.len() == 0 {
        assert(pow2(0) == 1) by {
            vstd::arithmetic::power2::lemma2_to64();
        }
    } else {
        let init = cs.drop_last();
        assert(codes_fit(init, w)) by {
            assert forall|i: int| 0 <= i < init.len() implies 0 <= #[trigger] init[i] < pow2(w) by {
                assert(init[i] == cs[i]);
            }
        }
        lemma_codes_value_bound(init, w);
        let e = w * (cs.len() - 1) as nat;
        let p = pow2(e);
        assert(w * cs.len() == e + w) by (nonlinear_arith)
            requires e == w * (cs.len() - 1) as nat, cs.len() >= 1;
        lemma_pow2_adds(e, w);
        lemma_pow2_pos(e);
        let x = cs.last();
        assert(0 <= x < pow2(w)) by {
            assert(x == cs[cs.len() - 1]);
        }
        let v0 = codes_value(init, w);
        assert(0 <= v0 + x * p < p * pow2(w)) by (nonlinear_arith)
            requires 0 <= v0 < p, 0 <= x < pow2(w), p > 0;
    }
}

/// Code `j` is the `j`-th group of `w` bits of the codes' number.
proof fn lemma_codes_digit(cs: Seq<int>, w: nat, j: int)
    requires
        codes_fit(cs, w),
        0 <= j < cs.len(),
    ensures
        (codes_value(cs, w) / pow2(w * j as nat) as int) % pow2(w) as int == cs[j],
    decreases cs.len(),
{
    let m = cs.len();
    let init = cs.drop_last();
    assert(codes_fit(init, w)) by {
        assert forall|i: int| 0 <= i < init.len() implies 0 <= #[trigger] init[i] < pow2(w) by {
            assert(init[i] == cs[i]);
        }
    }
    lemma_codes_value_bound(init, w);
    let e = w * (m - 1) as nat;
    let p = pow2(e);
    let v0 = codes_value(init, w);
    let x = cs.last();
    assert(0 <= x < pow2(w)) by {
        assert(x == cs[m - 1]);
    }
    lemma_pow2_pos(w);
    if j == m - 1 {
        lemma_split_at(v0 + x * p, x, v0, e);
        vstd::arithmetic::div_mod::lemma_small_mod(x as nat, pow2(w));
    } else {
        lemma_codes_digit(init, w, j);
        assert(init[j] == cs[j]);
        let a1: nat = (m - 1) as nat;
        let jj: nat = j as nat;
        let r1: nat = (m - 1 - j) as nat;
        let r2: nat = (m - 2 - j) as nat;
        let ej = w * jj;
        let er = w * r1;
        assert(e == ej + er) by (nonlinear_arith)
            requires e == w * a1, ej == w * jj, er == w * r1, a1 == jj + r1;
        assert(er == w + w * r2) by (nonlinear_arith)
            requires er == w * r1, r1 == r2 + 1;
        lemma_pow2_adds(ej, er);
        lemma_pow2_adds(w, w * (m - 2 - j) as nat);
        lemma_pow2_pos(ej);
        let big = x * pow2(er);
        // (v0 + big * 2^ej) / 2^ej == v0 / 2^ej + big
        lemma_hoist_over_denominator(v0, big, pow2(ej));
        assert(big * pow2(ej) == x * p) by (nonlinear_arith)
            requires big == x * pow2(er), p == pow2(ej) * pow2(er), p == pow2(e);
        let q = x * pow2(w * (m - 2 - j) as nat);
        assert(big == pow2(w) * q) by (nonlinear_arith)
            requires big == x * pow2(er), pow2(er) == pow2(w) * pow2(w * (m - 2 - j) as nat), q == x * pow2(w * (m - 2 - j) as nat);
        vstd::arithmetic::div_mod::lemma_mod_multiples_vanish(q, v0 / pow2(ej) as int, pow2(w) as int);
        assert(v0 / pow2(ej) as int + big == pow2(w) * q + v0 / pow2(ej) as int);
    }
}

/// The packer after putting each of `codes` in turn.
pub open spec fn put_codes(p: PackView, codes: Seq<int>) -> PackView
    decreases codes.len(),
{
    if codes.len() == 0 {
        p
    } else {
        put_code(put_codes(p, codes.drop_last()), codes.last())
    }
}

/// The data bytes that putting `codes`, `w` bits each, sends on from a bit
/// register `d` holding `n` bits, with the register and its bit count after.
pub open spec fn pack_codes(d: u64, n: int, w: int, codes: Seq<int>) -> (Seq<u8>, u64, int)
    decreases codes.len(),
{
    if codes.len() == 0 {
        (Seq::empty(), d, n)
    } else {
        let (bs, d1, n1) = pack_codes(d, n, w, codes.drop_last());
        let v = d1 | ((codes.last() as u64) << (n1 as u64));
        let m = n1 + w;
        let k = m / 8;
        (bs + low_bytes(v, k as nat), v >> ((8 * k) as u64), m - 8 * k)
    }
}

/// After at least one code the register holds fewer than 8 bits.
proof fn lemma_pack_nbits(n0: int, w: int, d: u64, codes: Seq<int>)
    requires
        0 <= n0,
        0 <= w,
    ensures
        codes.len() == 0 ==> pack_codes(d, n0, w, codes).2 == n0,
        codes.len() > 0 ==> 0 <= pack_codes(d, n0, w, codes).2 < 8,
    decreases codes.len(),
{
    if codes.len() > 0 {
        lemma_pack_nbits(n0, w, d, codes.drop_last());
    }
}

/// Appending `a + b` is appending `a`, then `b`.
proof fn lemma_block_put_all_concat(buf: Seq<u8>, out: Seq<u8>, a: Seq<u8>, b: Seq<u8>)
    ensures
        block_put_all(buf, out, a + b) == ({
            let (b1, o1) = block_put_all(buf, out, a);
            block_put_all(b1, o1, b)
        }),
    decreases b.len(),
{
    if b.len() == 0 {
        assert(a + b =~= a);
    } else {
        lemma_block_put_all_concat(buf, out, a, b.drop_last());
        assert((a + b).drop_last() =~= a + b.drop_last());
        assert((a + b).last() == b.last());
    }
}

/// Putting codes with the code width fixed (the running code below its
/// limit) sends on the data bytes of `pack_codes` through the sub-block
/// buffer.
proof fn lemma_put_codes(p: PackView, codes: Seq<int>)
    requires
        p.rc < p.max,
        0 <= p.nbits,
        0 <= p.rb,
    ensures
        ({
            let (bs, d, n) = pack_codes(p.dword, p.nbits as int, p.rb as int, codes);
            let (b, o) = block_put_all(p.buf, p.out, bs);
            put_codes(p, codes) == (PackView { dword: d, nbits: n as i32, buf: b, out: o, ..p })
        }),
    decreases codes.len(),
{
    if codes.len() > 0 {
        lemma_put_codes(p, codes.drop_last());
        let (bs, d1, n1) = pack_codes(p.dword, p.nbits as int, p.rb as int, codes.drop_last());
        let c = codes.last();
        let v = d1 | ((c as u64) << (n1 as u64));
        let m = n1 + p.rb;
        let k = m / 8;
        lemma_block_put_all_concat(p.buf, p.out, bs, low_bytes(v, k as nat));
        let q = put_codes(p, codes.drop_last());
        assert(q.nbits == n1 as i32);
        assert(q.nbits as int == n1) by {
            lemma_pack_nbits(p.nbits as int, p.rb as int, p.dword, codes.drop_last());
        }
    }
}

/// Powers of two up to `2^12`, and `2^w * 2^n` below `2^20` for the widths
/// and register counts that packing uses.
proof fn lemma_small_pows(w: nat, n: nat)
    requires
        w <= 12,
        n < 8,
    ensures
        pow2(w) <= 4096,
        pow2(n) <= 128,
        pow2(w) * pow2(n) <= 0x10_0000,
{
    vstd::arithmetic::power2::lemma2_to64();
    if w < 12 {
        vstd::arithmetic::power2::lemma_pow2_strictly_increases(w, 12);
    }
    if n < 7 {
        vstd::arithmetic::power2::lemma_pow2_strictly_increases(n, 7);
    }
    assert(pow2(w) * pow2(n) <= 4096 * 128) by (nonlinear_arith)
        requires pow2(w) <= 4096, pow2(n) <= 128;
}

/// Packing codes from an empty register: the data bytes hold the low bits
/// of the codes' number and the register the rest, fewer than 8 bits.
proof fn lemma_pack_value(w: int, codes: Seq<int>)
    requires
        1 <= w <= 12,
        codes_fit(codes, w as nat),
    ensures
        ({
            let (bs, d, n) = pack_codes(0, 0, w, codes);
            &&& le_value(bs) + d * pow2((8 * bs.len()) as nat) == codes_value(codes, w as nat)
            &&& n == w * codes.len() - 8 * bs.len()
            &&& 0 <= n < 8
            &&& d < pow2(n as nat)
        }),
    decreases codes.len(),
{
    vstd::arithmetic::power2::lemma2_to64();
    if codes.len() > 0 {
        let m = codes.len();
        let init = codes.drop_last();
        assert(codes_fit(init, w as nat)) by {
            assert forall|i: int| 0 <= i < init.len() implies 0 <= #[trigger] init[i] < pow2(w as nat) by {
                assert(init[i] == codes[i]);
            }
        }
        lemma_pack_value(w, init);
        let (bs, d1, n1) = pack_codes(0, 0, w, init);
        let c = codes.last();
        assert(0 <= c < pow2(w as nat)) by {
            assert(c == codes[m - 1]);
        }
        let big_p = pow2((8 * bs.len()) as nat);
        let l = le_value(bs);
        lemma_small_pows(w as nat, n1 as nat);
        lemma_pow2_pos(n1 as nat);
        lemma_pow2_pos(w as nat);
        assert((c as u64) * pow2(n1 as nat) <= u64::MAX) by (nonlinear_arith)
            requires 0 <= c < pow2(w as nat), pow2(w as nat) * pow2(n1 as nat) <= 0x10_0000;
        lemma_or_shifted(d1, c as u64, n1 as u64);
        let v = d1 | ((c as u64) << (n1 as u64));
        assert(v == d1 + c * pow2(n1 as nat));
        let mm = n1 + w;
        let k = mm / 8;
        assert(0 <= k <= 2);
        lemma_low_bytes(v, k as nat);
        let lb = low_bytes(v, k as nat);
        lemma_mask(v, (8 * k) as u64);
        let pk = pow2((8 * k) as nat);
        lemma_pow2_pos((8 * k) as nat);
        let d2 = v >> ((8 * k) as u64);
        assert(d2 as int == v as int / pk as int);
        assert(le_value(lb) == v as int % pk as int);
        lemma_le_value_concat(bs, lb);
        lemma_pow2_adds((8 * bs.len()) as nat, (8 * k) as nat);
        assert((8 * (bs + lb).len()) as nat == (8 * bs.len()) as nat + (8 * k) as nat);
        // the bytes and the register hold `l + big_p * v`
        vstd::arithmetic::div_mod::lemma_fundamental_div_mod(v as int, pk as int);
        assert(le_value(bs + lb) + d2 * pow2((8 * (bs + lb).len()) as nat) == l + big_p * v) by (nonlinear_arith)
            requires
                le_value(bs + lb) == l + le_value(lb) * big_p,
                pow2((8 * (bs + lb).len()) as nat) == big_p * pk,
                le_value(lb) == v as int % pk as int,
                d2 as int == v as int / pk as int,
                v as int == pk * (v as int / pk as int) + v as int % pk as int;
        // `l + big_p * v` is the codes' number
        let e1 = (8 * bs.len()) as nat;
        let e2 = (w * (m - 1)) as nat;
        assert(e1 + n1 == e2);
        lemma_pow2_adds(e1, n1 as nat);
        assert(big_p * v == big_p * d1 + c * pow2(e2)) by (nonlinear_arith)
            requires v == d1 + c * pow2(n1 as nat), pow2(e2) == big_p * pow2(n1 as nat);
        assert(w as nat * (m - 1) as nat == e2);
        assert(codes_value(codes, w as nat) == codes_value(init, w as nat) + c * pow2(e2));
        // the register's bound
        let n2 = mm - 8 * k;
        lemma_pow2_adds(n1 as nat, w as nat);
        lemma_pow2_adds(n2 as nat, (8 * k) as nat);
        assert(v < pow2(n2 as nat) * pk) by (nonlinear_arith)
            requires
                v == d1 + c * pow2(n1 as nat),
                d1 < pow2(n1 as nat),
                c < pow2(w as nat),
                pow2((n1 + w) as nat) == pow2(n1 as nat) * pow2(w as nat),
                pow2((n2 + 8 * k) as nat) == pow2(n2 as nat) * pk,
                n2 + 8 * k == n1 + w;
        assert(d2 < pow2(n2 as nat)) by (nonlinear_arith)
            requires
                v as int == pk * d2 + v as int % pk as int,
                v as int % pk as int >= 0,
                v < pow2(n2 as nat) * pk,
                pk > 0;
        let r = pack_codes(0, 0, w, codes);
        assert(r == (bs + lb, d2, n2));
        assert(n2 == w * m - 8 * (bs + lb).len()) by (nonlinear_arith)
            requires n2 == n1 + w - 8 * k, n1 == w * (m - 1) - 8 * bs.len(), (bs + lb).len() == bs.len() + k;
        assert(le_value(bs + lb) + d2 * pow2((8 * (bs + lb).len()) as nat) == codes_value(codes, w as nat));
    }
}

/// Bits `b .. b + c` of `x` are those of `x` modulo `2^a` when `b + c <= a`.
proof fn lemma_bit_window(x: int, a: nat, b: nat, c: nat)
    requires
        0 <= x,
        b + c <= a,
    ensures
        (x % pow2(a) as int) / pow2(b) as int % pow2(c) as int == x / pow2(b) as int % pow2(c) as int,
{
    let ab = (a - b) as nat;
    lemma_pow2_adds(b, ab);
    lemma_pow2_adds(c, (ab - c) as nat);
    lemma_pow2_pos(b);
    lemma_pow2_pos(ab);
    lemma_pow2_pos(c);
    lemma_pow2_pos((ab - c) as nat);
    lemma_mod_breakdown(x, pow2(b) as int, pow2(ab) as int);
    let y = (x / pow2(b) as int) % pow2(ab) as int;
    let r = x % pow2(b) as int;
    assert(0 <= r < pow2(b));
    lemma_div_multiples_vanish_fancy(y, r, pow2(b) as int);
    lemma_mod_mod(x / pow2(b) as int, pow2(c) as int, pow2((ab - c) as nat) as int);
}

/// `x` below `2^(a + b)` divided by `2^a` is below `2^b`.
proof fn lemma_div_pow2_bound(x: int, a: nat, b: nat)
    requires
        0 <= x < pow2(a + b),
    ensures
        x / (pow2(a) as int) < pow2(b),
{
    lemma_pow2_adds(a, b);
    lemma_pow2_pos(a);
    vstd::arithmetic::div_mod::lemma_fundamental_div_mod(x, pow2(a) as int);
    let q = x / pow2(a) as int;
    if q >= pow2(b) {
        assert(pow2(a) * q >= pow2(a) * pow2(b)) by (nonlinear_arith)
            requires q >= pow2(b), pow2(a) > 0;
    }
}

/// The decompressor's view after reading `m` codes, with the codes read;
/// `None` when the data runs out first.
pub open spec fn read_codes(v: DecView, m: nat) -> Option<(DecView, Seq<i32>)>
    decreases m,
{
    if m == 0 {
        Some((v, Seq::empty()))
    } else {
        match read_codes(v, (m - 1) as nat) {
            None => None,
            Some((v1, cs)) => match read_code(v1) {
                None => None,
                Some((v2, c)) => Some((v2, cs.push(c))),
            },
        }
    }
}

/// The codes as the decompressor's code type.
pub open spec fn as_codes(cs: Seq<int>) -> Seq<i32> {
    cs.map_values(|c: int| c as i32)
}

/// Reading `w`-bit codes back from data bytes holding the codes' number:
/// after `j` codes, the first `j` codes have come out, the reader has taken
/// as many bytes as those codes' bits fill, and its register holds the bits
/// of those bytes above the codes read.
proof fn lemma_read_back(v0: DecView, data: Seq<u8>, w: int, codes: Seq<int>, j: nat)
    requires
        1 <= w <= 12,
        codes_fit(codes, w as nat),
        le_value(data) == codes_value(codes, w as nat),
        8 * data.len() >= w * codes.len(),
        v0.stream == data,
        v0.dword == 0,
        v0.nbits == 0,
        v0.rb == w,
        v0.rc + codes.len() <= v0.max,
        j <= codes.len(),
    ensures
        read_codes(v0, j) matches Some((vj, cs)) && {
            let t = (w * j + vj.nbits) / 8;
            &&& cs == as_codes(codes.take(j as int))
            &&& 0 <= vj.nbits < 8
            &&& (w * j + vj.nbits) % 8 == 0
            &&& 0 <= t <= data.len()
            &&& vj.stream == data.skip(t)
            &&& vj.dword as int == le_value(data.take(t)) as int / pow2((w * j) as nat) as int
            &&& vj.rb == w
            &&& vj.max == v0.max
            &&& vj.rc <= v0.rc + j
        },
    decreases j,
{
    vstd::arithmetic::power2::lemma2_to64();
    if j == 0 {
        assert(data.skip(0) =~= data);
        assert(data.take(0) =~= Seq::<u8>::empty());
        assert(as_codes(codes.take(0)) =~= Seq::<i32>::empty());
        assert(w * j == 0) by (nonlinear_arith)
            requires j == 0;
        assert(le_value(Seq::<u8>::empty()) == 0);
    } else {
        let j1 = (j - 1) as nat;
        lemma_read_back(v0, data, w, codes, j1);
        let (vj, cs) = read_codes(v0, j1).unwrap();
        let nb = vj.nbits as int;
        let t = (w * j1 + nb) / 8;
        assert(8 * t == w * j1 + nb);
        let k = bytes_needed(nb, w);
        let t2 = t + k;
        // the bytes needed are there
        assert(w * j == w * j1 + w) by (nonlinear_arith)
            requires j == j1 + 1;
        assert(8 * t2 >= w * j);
        assert(k > 0 ==> 8 * (t2 - 1) < w * j) by {
            if nb < w {
                assert(k == (w - nb + 7) / 8);
            }
        }
        assert(w * j <= w * codes.len()) by (nonlinear_arith)
            requires j <= codes.len(), w >= 1;
        assert(t2 <= data.len());
        assert(vj.stream.len() >= k);
        let sub = vj.stream.take(k);
        assert(sub =~= data.subrange(t, t2));
        // the register before
        let ej = (w * j1) as nat;
        lemma_le_value_bound(data.take(t));
        assert((8 * t) as nat == ej + nb as nat);
        lemma_div_pow2_bound(le_value(data.take(t)) as int, ej, nb as nat);
        assert(nb + 8 * k <= 64);
        lemma_fill_bits(vj.dword, nb, sub);
        let f = fill_bits(vj.dword, nb, sub);
        // f is the number of the first t2 bytes, above the codes read
        assert(data.take(t2) =~= data.take(t) + sub);
        lemma_le_value_concat(data.take(t), sub);
        lemma_pow2_adds(ej, nb as nat);
        lemma_pow2_pos(ej);
        let a0 = le_value(data.take(t)) as int;
        let js = (le_value(sub) * pow2(nb as nat)) as int;
        lemma_hoist_over_denominator(a0, js, pow2(ej));
        assert(js * pow2(ej) == le_value(sub) * pow2((8 * t) as nat)) by (nonlinear_arith)
            requires js == le_value(sub) * pow2(nb as nat), pow2((8 * t) as nat) == pow2(ej) * pow2(nb as nat);
        let x = le_value(data.take(t2)) as int;
        assert(f as int == x / pow2(ej) as int);
        // the code read is code j - 1
        lemma_mask(f, w as u64);
        let c = (f & ((1u64 << (w as u64)) - 1) as u64) as i32;
        lemma_le_value_take(data, t2);
        let cv = codes_value(codes, w as nat);
        lemma_codes_value_bound(codes, w as nat);
        assert(ej + w <= 8 * t2) by (nonlinear_arith)
            requires ej == w * j1, 8 * t2 >= w * j, j == j1 + 1;
        lemma_bit_window(cv, (8 * t2) as nat, ej, w as nat);
        lemma_codes_digit(codes, w as nat, j1 as int);
        assert(f as int % pow2(w as nat) as int == codes[j1 as int]);
        lemma_small_pows(w as nat, 0);
        assert(c as int == codes[j1 as int]);
        // the view after
        let (rc, rb1, max) = crate::decoder_lzw::running_after(vj.rc, vj.rb, vj.max);
        assert(rb1 == w && max == v0.max);
        lemma_div_denominator(x, pow2(ej) as int, pow2(w as nat) as int);
        lemma_pow2_adds(ej, w as nat);
        assert((w * j) as nat == ej + w as nat);
        let (vn, cn) = read_code(vj).unwrap();
        assert(cn == c);
        assert(vn.dword as int == x / pow2((w * j) as nat) as int);
        assert(vn.stream =~= data.skip(t2));
        assert(as_codes(codes.take(j as int)) =~= as_codes(codes.take(j1 as int)).push(c)) by {
            assert(codes.take(j as int)[j1 as int] == codes[j1 as int]);
        }
        assert((w * j + vn.nbits) / 8 == t2);
        assert(read_codes(v0, j) == Some((vn, cs.push(c))));
        assert(0 <= vn.nbits < 8);
        assert((w * j + vn.nbits) % 8 == 0);
        assert(vn.rc <= v0.rc + j);
    }
}

/// Codes of a fixed width, put by the compressor's bit packer one after
/// another from an empty register into an empty sub-block and then flushed,
/// are read back in order by the decompressor's code reader at the same
/// width from the sub-blocks written, whatever bytes follow them: what the
/// packing writes, the reading gives back. The width stays fixed while the
/// packer's running code is below its limit and the reader's stays within
/// its limit.
pub proof fn lemma_codes_round_trip(p: PackView, codes: Seq<int>, v: DecView, rest: Seq<u8>)
    requires
        1 <= p.rb <= 12,
        p.dword == 0,
        p.nbits == 0,
        p.rc < p.max,
        p.buf.len() == 256,
        p.buf[0] == 0,
        codes_fit(codes, p.rb as nat),
        v.stream == sub_block_data(flush_bits(put_codes(p, codes)).out.skip(p.out.len() as int) + rest),
        v.dword == 0,
        v.nbits == 0,
        v.rb == p.rb,
        v.rc + codes.len() <= v.max,
    ensures
        read_codes(v, codes.len()) matches Some((_, cs)) && cs == as_codes(codes),
{
    vstd::arithmetic::power2::lemma2_to64();
    let w = p.rb as int;
    lemma_put_codes(p, codes);
    let (bs, d, n) = pack_codes(0, 0, w, codes);
    lemma_pack_value(w, codes);
    lemma_pack_nbits(0, w, 0, codes);
    let q = put_codes(p, codes);
    let kf: nat = if q.nbits > 0 { 1 } else { 0 };
    let lowf = low_bytes(q.dword, kf);
    let data = bs + lowf;
    lemma_block_put_all_concat(p.buf, p.out, bs, lowf);
    crate::roundtrip::lemma_block_framing(p.buf, p.out, data, rest);
    assert(v.stream == data);
    // the data holds the codes' number
    lemma_low_bytes(d, kf);
    lemma_le_value_concat(bs, lowf);
    lemma_small_pows(0, n as nat);
    if n > 0 {
        vstd::arithmetic::div_mod::lemma_small_mod(d as nat, 256);
    } else {
        assert(d == 0);
    }
    assert(le_value(lowf) == d);
    assert(le_value(data) == codes_value(codes, w as nat));
    assert(8 * data.len() >= w * codes.len());
    lemma_read_back(v, data, w, codes, codes.len());
    assert(codes.take(codes.len() as int) =~= codes);
}

} // verus!

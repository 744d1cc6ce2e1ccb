//! Median-cut color quantization: an RGB image is reduced to at most a given
//! number of colors by splitting boxes of 15-bit colors at the median of
//! their pixel counts, and each pixel gets the index of its box.
use vstd::prelude::*;
use vstd::multiset::Multiset;
use crate::colormap::{GifColorType, slice_to_vec};

verus! {

broadcast use vstd::seq_lib::group_seq_properties, vstd::multiset::group_multiset_axioms;

/// The number of 15-bit colors.
pub const COLOR_ARRAY_SIZE: usize = 32768;
/// Bits kept of each primary color.
pub const BITS_PER_PRIM_COLOR: usize = 5;
/// The largest 5-bit primary color.
pub const MAX_PRIM_COLOR: u8 = 0x1f;

/// A 15-bit color, the box it ended in, and how many pixels have it.
#[derive(Debug, Clone, Copy)]
pub struct QuantizedColor {
    pub rgb: [u8; 3],
    pub new_color_index: u8,
    pub count: i64,
}

/// A box of the color space: its lower corner and extent (in 8-bit color
/// units), the 15-bit colors in it, and their total pixel count.
#[derive(Debug)]
pub struct ColorSubdiv {
    pub rgb_min: [u8; 3],
    pub rgb_width: [u8; 3],
    pub num_entries: usize,
    pub count: i64,
    pub color_indices: Vec<usize>,
}

/// The sort key of a color along `axis`: that primary first, then the next
/// two in turn.
pub open spec fn color_key(c: QuantizedColor, axis: int) -> int {
    c.rgb@[axis] * 65536 + c.rgb@[(axis + 1) % 3] * 256 + c.rgb@[(axis + 2) % 3]
}

/// The total pixel count of the colors `idx` of `ca`.
pub open spec fn count_sum(ca: Seq<QuantizedColor>, idx: Seq<usize>) -> int
    decreases idx.len(),
{
    if idx.len() == 0 {
        0
    } else {
        count_sum(ca, idx.drop_last()) + ca[idx.last() as int].count
    }
}

/// Colors of at most 5 bits per primary, with non-negative counts.
pub open spec fn colors_ok(ca: Seq<QuantizedColor>) -> bool {
    forall|i: int| 0 <= i < ca.len() ==> {
        &&& (#[trigger] ca[i]).rgb@[0] < 32
        &&& ca[i].rgb@[1] < 32
        &&& ca[i].rgb@[2] < 32
        &&& ca[i].count >= 0
    }
}

/// Every one of `idx` names a color of `ca`.
pub open spec fn indices_in(ca: Seq<QuantizedColor>, idx: Seq<usize>) -> bool {
    forall|k: int| 0 <= k < idx.len() ==> #[trigger] idx[k] < ca.len()
}

proof fn lemma_count_sum_concat(ca: Seq<QuantizedColor>, a: Seq<usize>, b: Seq<usize>)
    ensures
        count_sum(ca, a + b) == count_sum(ca, a) + count_sum(ca, b),
    decreases b.len(),
{
    if b.len() == 0 {
        assert(a + b =~= a);
    } else {
        lemma_count_sum_concat(ca, a, b.drop_last());
        assert((a + b).drop_last() =~= a + b.drop_last());
    }
}

proof fn lemma_count_sum_nonneg(ca: Seq<QuantizedColor>, a: Seq<usize>)
    requires
        colors_ok(ca),
        indices_in(ca, a),
    ensures
        count_sum(ca, a) >= 0,
    decreases a.len(),
{
    if a.len() > 0 {
        assert(a.last() == a[a.len() - 1]);
        lemma_count_sum_nonneg(ca, a.drop_last());
    }
}

proof fn lemma_count_sum_insert(ca: Seq<QuantizedColor>, s: Seq<usize>, p: int, x: usize)
    requires
        0 <= p <= s.len(),
    ensures
        count_sum(ca, s.insert(p, x)) == count_sum(ca, s) + ca[x as int].count,
{
    let a = s.subrange(0, p);
    let b = s.subrange(p, s.len() as int);
    assert(s =~= a + b);
    assert(s.insert(p, x) =~= a.push(x) + b);
    lemma_count_sum_concat(ca, a, b);
    lemma_count_sum_concat(ca, a.push(x), b);
    assert(a.push(x).drop_last() =~= a);
}

/// `s` with `x` placed before the first color whose key along `axis` is
/// above that of `x`.
pub open spec fn insert_by_key(ca: Seq<QuantizedColor>, s: Seq<usize>, x: usize, axis: int) -> Seq<usize>
    decreases s.len(),
{
    if s.len() == 0 {
        seq![x]
    } else if color_key(ca[s[0] as int], axis) > color_key(ca[x as int], axis) {
        seq![x] + s
    } else {
        seq![s[0]] + insert_by_key(ca, s.skip(1), x, axis)
    }
}

/// The colors `items` ordered by their key along `axis`, smallest first,
/// colors of equal key in the order of `items` (a stable sort).
pub open spec fn sort_along(ca: Seq<QuantizedColor>, items: Seq<usize>, axis: int) -> Seq<usize>
    decreases items.len(),
{
    if items.len() == 0 {
        Seq::empty()
    } else {
        insert_by_key(ca, sort_along(ca, items.drop_last(), axis), items.last(), axis)
    }
}

/// Inserting at position `p`, where every key before is not above that of
/// `x` and the key at `p` is, places `x` at `p`.
proof fn lemma_insert_by_key_at(ca: Seq<QuantizedColor>, s: Seq<usize>, x: usize, axis: int, p: int)
    requires
        0 <= p <= s.len(),
        forall|q: int| 0 <= q < p ==> color_key(ca[#[trigger] s[q] as int], axis) <= color_key(ca[x as int], axis),
        p < s.len() ==> color_key(ca[s[p] as int], axis) > color_key(ca[x as int], axis),
    ensures
        insert_by_key(ca, s, x, axis) == s.insert(p, x),
    decreases s.len(),
{
    if s.len() == 0 {
        assert(s.insert(p, x) =~= seq![x]);
    } else if p == 0 {
        assert(s.insert(0, x) =~= seq![x] + s);
    } else {
        let t = s.skip(1);
        assert forall|q: int| 0 <= q < p - 1 implies color_key(ca[#[trigger] t[q] as int], axis) <= color_key(ca[x as int], axis) by {
            assert(t[q] == s[q + 1]);
        }
        if p < s.len() {
            assert(t[p - 1] == s[p]);
        }
        lemma_insert_by_key_at(ca, t, x, axis, p - 1);
        assert(seq![s[0]] + t.insert(p - 1, x) =~= s.insert(p, x));
    }
}

/// Sort color indices by their key along `axis`, smallest first.
fn sort_by_key(ca: &[QuantizedColor], items: &Vec<usize>, axis: usize) -> (r: Vec<usize>)
    requires
        axis < 3,
        indices_in(ca@, items@),
    ensures
        r@.len() == items@.len(),
        r@.to_multiset() == items@.to_multiset(),
        count_sum(ca@, r@) == count_sum(ca@, items@),
        forall|k: int| 0 <= k < r@.len() ==> items@.contains(#[trigger] r@[k]),
        indices_in(ca@, r@),
        forall|i: int, j: int| 0 <= i < j < r@.len() ==> color_key(ca@[r@[i] as int], axis as int)
            <= color_key(ca@[r@[j] as int], axis as int),
        r@ == sort_along(ca@, items@, axis as int),
{
    let mut r: Vec<usize> = Vec::new();
    let mut t: usize = 0;
    let a1 = (axis + 1) % 3;
    let a2 = (axis + 2) % 3;
    assert(items@.take(0) =~= Seq::<usize>::empty());
    while t < items.len()
        invariant
            axis < 3,
            a1 == (axis + 1) % 3,
            a2 == (axis + 2) % 3,
            t <= items@.len(),
            indices_in(ca@, items@),
            r@.len() == t,
            r@.to_multiset() == items@.take(t as int).to_multiset(),
            count_sum(ca@, r@) == count_sum(ca@, items@.take(t as int)),
            forall|k: int| 0 <= k < r@.len() ==> items@.contains(#[trigger] r@[k]),
            indices_in(ca@, r@),
            forall|i: int, j: int| 0 <= i < j < r@.len() ==> color_key(ca@[r@[i] as int], axis as int)
                <= color_key(ca@[r@[j] as int], axis as int),
            r@ == sort_along(ca@, items@.take(t as int), axis as int),
        decreases items@.len() - t,
    {
        let x = items[t];
        let cx = ca[x];
        let kx: i32 = (cx.rgb[axis] as i32) * 65536 + (cx.rgb[a1] as i32) * 256 + (cx.rgb[a2] as i32);
        assert(kx == color_key(ca@[x as int], axis as int));
        let mut p: usize = 0;
        while p < r.len()
            invariant
                p <= r@.len(),
                indices_in(ca@, r@),
                axis < 3,
                a1 == (axis + 1) % 3,
                a2 == (axis + 2) % 3,
                kx == color_key(ca@[x as int], axis as int),
                forall|q: int| 0 <= q < p ==> color_key(ca@[#[trigger] r@[q] as int], axis as int) <= kx,
            ensures
                p <= r@.len(),
                forall|q: int| 0 <= q < p ==> color_key(ca@[#[trigger] r@[q] as int], axis as int) <= kx,
                p < r@.len() ==> color_key(ca@[r@[p as int] as int], axis as int) > kx,
            decreases r@.len() - p,
        {
            let c = ca[r[p]];
            let kc: i32 = (c.rgb[axis] as i32) * 65536 + (c.rgb[a1] as i32) * 256 + (c.rgb[a2] as i32);
            assert(kc == color_key(ca@[r@[p as int] as int], axis as int));
            if kc > kx {
                break;
            }
            p = p + 1;
        }
        let ghost r0 = r@;
        r.insert(p, x);
        proof {
            lemma_insert_by_key_at(ca@, r0, x, axis as int, p as int);
            assert(items@.take(t + 1).drop_last() =~= items@.take(t as int));
            assert(items@.take(t + 1).last() == x);
            assert(items@.take(t + 1) =~= items@.take(t as int).push(x));
            lemma_count_sum_insert(ca@, r0, p as int, x);
            assert(items@.take(t + 1).drop_last() =~= items@.take(t as int));
            assert(items@.contains(x)) by {
                assert(items@[t as int] == x);
            }
            assert forall|k: int| 0 <= k < r@.len() implies items@.contains(#[trigger] r@[k]) by {
                if k < p {
                    assert(r@[k] == r0[k]);
                } else if k > p {
                    assert(r@[k] == r0[k - 1]);
                }
            }
            assert forall|i: int, j: int| 0 <= i < j < r@.len() implies color_key(ca@[r@[i] as int], axis as int)
                <= color_key(ca@[r@[j] as int], axis as int) by {
                if j < p {
                    assert(r@[i] == r0[i] && r@[j] == r0[j]);
                } else if j == p {
                    assert(r@[i] == r0[i]);
                } else if i < p {
                    assert(r@[i] == r0[i] && r@[j] == r0[j - 1]);
                } else if i == p {
                    assert(r@[j] == r0[j - 1]);
                    assert(color_key(ca@[r0[p as int] as int], axis as int) > kx);
                    if j - 1 > p {
                        assert(color_key(ca@[r0[p as int] as int], axis as int) <= color_key(ca@[r0[j - 1] as int], axis as int));
                    }
                } else {
                    assert(r@[i] == r0[i - 1] && r@[j] == r0[j - 1]);
                }
            }
        }
        t = t + 1;
    }
    assert(items@.take(items@.len() as int) =~= items@);
    r
}

/// Along `axis`, the color lies within the box (in 8-bit color units).
pub open spec fn box_axis(sd: ColorSubdiv, c: QuantizedColor, axis: int) -> bool {
    sd.rgb_min@[axis] <= c.rgb@[axis] * 8 <= sd.rgb_min@[axis] + sd.rgb_width@[axis]
}

pub open spec fn in_box(sd: ColorSubdiv, c: QuantizedColor) -> bool {
    box_axis(sd, c, 0) && box_axis(sd, c, 1) && box_axis(sd, c, 2)
}

/// A box holding at least one color, `num_entries` of them, each inside it,
/// with their total pixel count, and lying within 8-bit color.
pub open spec fn subdiv_ok(ca: Seq<QuantizedColor>, sd: ColorSubdiv) -> bool {
    &&& sd.num_entries == sd.color_indices@.len()
    &&& sd.num_entries >= 1
    &&& indices_in(ca, sd.color_indices@)
    &&& forall|k: int| 0 <= k < sd.color_indices@.len() ==> in_box(sd, ca[#[trigger] sd.color_indices@[k] as int])
    &&& sd.rgb_min@[0] + sd.rgb_width@[0] <= 255
    &&& sd.rgb_min@[1] + sd.rgb_width@[1] <= 255
    &&& sd.rgb_min@[2] + sd.rgb_width@[2] <= 255
    &&& sd.count == count_sum(ca, sd.color_indices@)
}

/// The first `n` of the 256 boxes are well formed.
pub open spec fn subdivs_ok(ca: Seq<QuantizedColor>, subs: Seq<ColorSubdiv>, n: int) -> bool {
    &&& subs.len() == 256
    &&& 1 <= n <= 256
    &&& forall|k: int| 0 <= k < n ==> subdiv_ok(ca, #[trigger] subs[k])
}

/// The colors held by the first `n` boxes, with repetitions.
pub open spec fn entries_ms(subs: Seq<ColorSubdiv>, n: int) -> Multiset<usize>
    decreases n,
{
    if n <= 0 {
        Multiset::empty()
    } else {
        entries_ms(subs, n - 1).add(subs[n - 1].color_indices@.to_multiset())
    }
}

proof fn lemma_entries_ms_same(s1: Seq<ColorSubdiv>, s2: Seq<ColorSubdiv>, n: int)
    requires
        forall|k: int| 0 <= k < n ==> s1[k] == s2[k],
    ensures
        entries_ms(s1, n) == entries_ms(s2, n),
    decreases n,
{
    if n > 0 {
        lemma_entries_ms_same(s1, s2, n - 1);
    }
}

proof fn lemma_entries_ms_update(subs: Seq<ColorSubdiv>, n: int, i: int, sd: ColorSubdiv, x: usize)
    requires
        0 <= i < n <= subs.len(),
    ensures
        entries_ms(subs.update(i, sd), n).count(x) == entries_ms(subs, n).count(x)
            - subs[i].color_indices@.to_multiset().count(x) + sd.color_indices@.to_multiset().count(x),
    decreases n,
{
    let u = subs.update(i, sd);
    if n - 1 > i {
        lemma_entries_ms_update(subs, n - 1, i, sd, x);
        assert(u[n - 1] == subs[n - 1]);
    } else {
        lemma_entries_ms_same(u, subs, n - 1);
    }
}

proof fn lemma_key_order(c1: QuantizedColor, c2: QuantizedColor, axis: int)
    requires
        0 <= axis < 3,
        color_key(c1, axis) <= color_key(c2, axis),
    ensures
        c1.rgb@[axis] <= c2.rgb@[axis],
{
    if axis == 0 {
        assert(color_key(c1, 0) == c1.rgb@[0] * 65536 + c1.rgb@[1] * 256 + c1.rgb@[2]);
        assert(color_key(c2, 0) == c2.rgb@[0] * 65536 + c2.rgb@[1] * 256 + c2.rgb@[2]);
    } else if axis == 1 {
        assert(color_key(c1, 1) == c1.rgb@[1] * 65536 + c1.rgb@[2] * 256 + c1.rgb@[0]);
        assert(color_key(c2, 1) == c2.rgb@[1] * 65536 + c2.rgb@[2] * 256 + c2.rgb@[0]);
    } else {
        assert(color_key(c1, 2) == c1.rgb@[2] * 65536 + c1.rgb@[0] * 256 + c1.rgb@[1]);
        assert(color_key(c2, 2) == c2.rgb@[2] * 65536 + c2.rgb@[0] * 256 + c2.rgb@[1]);
    }
}

proof fn lemma_count_sum_prefix(ca: Seq<QuantizedColor>, s: Seq<usize>, m: int)
    requires
        colors_ok(ca),
        indices_in(ca, s),
        0 <= m <= s.len(),
    ensures
        0 <= count_sum(ca, s.take(m)) <= count_sum(ca, s),
{
    assert(s =~= s.take(m) + s.skip(m));
    lemma_count_sum_concat(ca, s.take(m), s.skip(m));
    lemma_count_sum_nonneg(ca, s.take(m));
    lemma_count_sum_nonneg(ca, s.skip(m));
}

/// A box as plain values: its lower corner and extent, its colors and
/// their total pixel count.
pub struct ColorBox {
    pub min: Seq<u8>,
    pub width: Seq<u8>,
    pub entries: Seq<usize>,
    pub count: int,
}

pub open spec fn box_view(sd: ColorSubdiv) -> ColorBox {
    ColorBox { min: sd.rgb_min@, width: sd.rgb_width@, entries: sd.color_indices@, count: sd.count as int }
}

/// The boxes of `subs` as plain values.
pub open spec fn boxes_view(subs: Seq<ColorSubdiv>) -> Seq<ColorBox> {
    subs.map_values(|sd: ColorSubdiv| box_view(sd))
}

/// Where the sorted colors `s` of a box are cut, searching from `pos` on:
/// after the first position `p` such that the colors up to `p + 1` count
/// more than `half` pixels, or after the last position that leaves a color
/// on the other side.
pub open spec fn cut_from(ca: Seq<QuantizedColor>, s: Seq<usize>, half: int, pos: int) -> int
    decreases s.len() - pos,
{
    if pos + 2 >= s.len() || half < count_sum(ca, s.take(pos + 2)) {
        pos
    } else {
        cut_from(ca, s, half, pos + 1)
    }
}

/// The two boxes that box `b` is split into along `axis`: its colors,
/// sorted along the axis (`sort_along`), are cut where their pixel count
/// passes half the box's (`cut_from`); the first part keeps the lower
/// corner and ends along the axis at the last color before the cut, the
/// second starts along the axis at the first color after it and keeps the
/// upper end.
pub open spec fn split_box(ca: Seq<QuantizedColor>, b: ColorBox, axis: int) -> (ColorBox, ColorBox) {
    let s = sort_along(ca, b.entries, axis);
    let p = cut_from(ca, s, b.count / 2, 0);
    let first = s.take(p + 1);
    let second = s.skip(p + 1);
    let max_c = ca[s[p] as int].rgb@[axis] * 8;
    let min_c = ca[s[p + 1] as int].rgb@[axis] * 8;
    let c1 = count_sum(ca, first);
    (
        ColorBox { min: b.min, width: b.width.update(axis, (max_c - b.min[axis]) as u8), entries: first, count: c1 },
        ColorBox {
            min: b.min.update(axis, min_c as u8),
            width: b.width.update(axis, (b.min[axis] + b.width[axis] - min_c) as u8),
            entries: second,
            count: b.count - c1,
        },
    )
}

/// `a` with entry `axis` replaced by `v`.
fn with_axis(a: [u8; 3], axis: usize, v: u8) -> (r: [u8; 3])
    requires
        axis < 3,
    ensures
        r@ == a@.update(axis as int, v),
{
    let r: [u8; 3] = if axis == 0 {
        [v, a[1], a[2]]
    } else if axis == 1 {
        [a[0], v, a[2]]
    } else {
        [a[0], a[1], v]
    };
    assert(r@ =~= a@.update(axis as int, v));
    r
}

/// Where the sorted colors `sorted` of a box with `scount` pixels are cut
/// (`cut_from`), and the pixel count of the colors up to the cut.
fn find_cut(ca: &[QuantizedColor], sorted: &Vec<usize>, scount: i64) -> (r: (usize, i64))
    requires
        colors_ok(ca@),
        indices_in(ca@, sorted@),
        sorted@.len() >= 2,
        scount == count_sum(ca@, sorted@),
    ensures
        r.0 <= sorted@.len() - 2,
        r.0 == cut_from(ca@, sorted@, scount / 2, 0),
        r.1 == count_sum(ca@, sorted@.take(r.0 + 1)),
{
    let total = sorted.len();
    proof {
        lemma_count_sum_nonneg(ca@, sorted@);
    }
    proof {
        lemma_count_sum_prefix(ca@, sorted@, 1);
        assert(sorted@.take(1) =~= seq![sorted@[0]]);
        assert(seq![sorted@[0]].drop_last() =~= Seq::<usize>::empty());
        assert(count_sum(ca@, Seq::<usize>::empty()) == 0);
        assert(count_sum(ca@, seq![sorted@[0]]) == ca@[sorted@[0] as int].count);
        assert(count_sum(ca@, sorted@.take(1)) == ca@[sorted@[0] as int].count);
    }
    let half_count = scount / 2;
    let first_count = ca[sorted[0]].count;
    let mut sum: i64 = half_count - first_count;
    let mut count: i64 = first_count;
    let mut split_pos: usize = 0;
    let mut pos: usize = 0;
    while pos < total - 1
        invariant
            colors_ok(ca@),
            indices_in(ca@, sorted@),
            sorted@.len() == total,
            total >= 2,
            scount == count_sum(ca@, sorted@),
            half_count == scount / 2,
            0 <= scount,
            pos <= total - 2,
            split_pos == pos,
            count == count_sum(ca@, sorted@.take(pos + 1)),
            sum == half_count - count,
            cut_from(ca@, sorted@, half_count as int, 0) == cut_from(ca@, sorted@, half_count as int, pos as int),
        ensures
            split_pos <= total - 2,
            count == count_sum(ca@, sorted@.take(split_pos + 1)),
            split_pos == cut_from(ca@, sorted@, half_count as int, 0),
        decreases total - pos,
    {
        let next_idx = sorted[pos + 1];
        let c = ca[next_idx].count;
        proof {
            lemma_count_sum_prefix(ca@, sorted@, pos + 2);
            assert(sorted@.take(pos + 2).drop_last() =~= sorted@.take(pos + 1));
            assert(sorted@.take(pos + 2).last() == next_idx);
        }
        if sum - c < 0 {
            split_pos = pos;
            break;
        }
        if pos + 2 >= total {
            split_pos = pos;
            break;
        }
        sum = sum - c;
        count = count + c;
        split_pos = pos + 1;
        pos = pos + 1;
    }
    (split_pos, count)
}

/// Split box `index` along `axis` at the median of its pixel count: its
/// colors, sorted along the axis, are cut after the first run whose count
/// reaches half the box's (keeping at least one color on each side); the
/// second part becomes box `n`, and both boxes shrink along the axis to
/// the cut.
#[verifier::spinoff_prover]
#[verifier::rlimit(100)]
fn split_subdiv(subdivs: &mut Vec<ColorSubdiv>, index: usize, axis: usize, n: usize, ca: &[QuantizedColor])
    requires
        colors_ok(ca@),
        subdivs_ok(ca@, old(subdivs)@, n as int),
        n < 256,
        index < n,
        axis < 3,
        old(subdivs)@[index as int].num_entries > 1,
    ensures
        subdivs_ok(ca@, final(subdivs)@, n + 1),
        forall|k: int| 0 <= k < 256 && k != index && k != n ==> final(subdivs)@[k] == old(subdivs)@[k],
        entries_ms(final(subdivs)@, n + 1) == entries_ms(old(subdivs)@, n as int),
        (box_view(final(subdivs)@[index as int]), box_view(final(subdivs)@[n as int]))
            == split_box(ca@, box_view(old(subdivs)@[index as int]), axis as int),
{
    let ghost s0 = subdivs@;
    let sd = &subdivs[index];
    assert(subdiv_ok(ca@, s0[index as int]));
    let sorted = sort_by_key(ca, &sd.color_indices, axis);
    let total = sd.num_entries;
    let scount = sd.count;
    let pmin = sd.rgb_min;
    let pw = sd.rgb_width;
    let (split_pos, count) = find_cut(ca, &sorted, scount);
    let half_count = scount / 2;
    let num_entries = split_pos + 1;
    proof {
        lemma_count_sum_prefix(ca@, sorted@, split_pos + 1);
    }
    let max_v = ca[sorted[split_pos]].rgb[axis];
    let min_v = ca[sorted[split_pos + 1]].rgb[axis];
    proof {
        assert(colors_ok(ca@));
        let cm = ca@[sorted@[split_pos as int] as int];
        let cn = ca@[sorted@[split_pos + 1] as int];
        assert(cm.rgb@[axis as int] < 32);
        assert(cn.rgb@[axis as int] < 32);
    }
    let max_color: u32 = (max_v as u32) * 8;
    let min_color: u32 = (min_v as u32) * 8;
    let first = slice_to_vec(vstd::slice::slice_subrange(sorted.as_slice(), 0, split_pos + 1));
    let second = slice_to_vec(vstd::slice::slice_subrange(sorted.as_slice(), split_pos + 1, total));
    proof {
        let old_sd = s0[index as int];
        assert(sorted@ =~= first@ + second@);
        lemma_count_sum_concat(ca@, first@, second@);
        assert(first@ == sorted@.take(split_pos + 1));
        // sortedness gives the cut values along the axis
        assert forall|k: int| 0 <= k < first@.len() implies ca@[#[trigger] first@[k] as int].rgb@[axis as int] <= max_v by {
            if k < split_pos {
                lemma_key_order(ca@[sorted@[k] as int], ca@[sorted@[split_pos as int] as int], axis as int);
            }
        }
        assert forall|k: int| 0 <= k < second@.len() implies ca@[#[trigger] second@[k] as int].rgb@[axis as int] >= min_v by {
            if k > 0 {
                lemma_key_order(ca@[sorted@[split_pos + 1] as int], ca@[sorted@[split_pos + 1 + k] as int], axis as int);
            }
        }
        // every color of the parent box lies in it
        assert forall|k: int| 0 <= k < sorted@.len() implies in_box(old_sd, ca@[#[trigger] sorted@[k] as int]) by {
            assert(old_sd.color_indices@.contains(sorted@[k]));
            let q = choose|q: int| 0 <= q < old_sd.color_indices@.len() && old_sd.color_indices@[q] == sorted@[k];
            assert(in_box(old_sd, ca@[old_sd.color_indices@[q] as int]));
        }
        assert(in_box(old_sd, ca@[sorted@[split_pos as int] as int]));
        assert(in_box(old_sd, ca@[sorted@[split_pos + 1] as int]));
    }
    let min2 = with_axis(pmin, axis, min_color as u8);
    let width2 = with_axis(pw, axis, (pmin[axis] as u32 + pw[axis] as u32 - min_color) as u8);
    let width1 = with_axis(pw, axis, (max_color - pmin[axis] as u32) as u8);
    let ghost old_sd = s0[index as int];
    let hi = ColorSubdiv {
        rgb_min: min2,
        rgb_width: width2,
        num_entries: total - num_entries,
        count: scount - count,
        color_indices: second,
    };
    let lo = ColorSubdiv {
        rgb_min: pmin,
        rgb_width: width1,
        num_entries: num_entries,
        count: count,
        color_indices: first,
    };
    proof {
        assert forall|k: int| 0 <= k < hi.color_indices@.len() implies in_box(hi, ca@[#[trigger] hi.color_indices@[k] as int]) by {
            assert(hi.color_indices@[k] == sorted@[split_pos + 1 + k]);
            assert(in_box(old_sd, ca@[sorted@[split_pos + 1 + k] as int]));
        }
        assert forall|k: int| 0 <= k < lo.color_indices@.len() implies in_box(lo, ca@[#[trigger] lo.color_indices@[k] as int]) by {
            assert(lo.color_indices@[k] == sorted@[k]);
            assert(in_box(old_sd, ca@[sorted@[k] as int]));
        }
        assert forall|k: int| 0 <= k < hi.color_indices@.len() implies #[trigger] hi.color_indices@[k] < ca@.len() by {
            assert(hi.color_indices@[k] == sorted@[split_pos + 1 + k]);
        }
        assert forall|k: int| 0 <= k < lo.color_indices@.len() implies #[trigger] lo.color_indices@[k] < ca@.len() by {
            assert(lo.color_indices@[k] == sorted@[k]);
        }
        assert(subdiv_ok(ca@, hi));
        assert(subdiv_ok(ca@, lo));
        let b = box_view(old_sd);
        assert(b.count / 2 == half_count);
        assert(sorted@ == sort_along(ca@, b.entries, axis as int));
        assert((box_view(lo), box_view(hi)) == split_box(ca@, b, axis as int));
    }
    subdivs.set(n, hi);
    let ghost s1 = subdivs@;
    subdivs.set(index, lo);
    proof {
        let s2 = subdivs@;
        assert forall|k: int| 0 <= k < n + 1 implies subdiv_ok(ca@, #[trigger] s2[k]) by {
            if k != index && k != n {
                assert(s2[k] == s0[k]);
            }
        }
        lemma_entries_ms_same(s2, s0.update(index as int, lo), n as int);
        assert forall|x: usize| entries_ms(s2, n + 1).count(x) == entries_ms(s0, n as int).count(x) by {
            lemma_entries_ms_update(s0, n as int, index as int, lo, x);
            vstd::seq_lib::lemma_multiset_commutative(first@, second@);
        }
        assert(entries_ms(s2, n + 1) =~= entries_ms(s0, n as int));
    }
}

/// A box with more than one color, which can be split.
pub open spec fn splittable(b: ColorBox) -> bool {
    b.entries.len() > 1
}

/// Box `i2`, primary `j2` comes before box `i`, primary `j`: by box, then
/// by primary.
pub open spec fn cell_before(i2: int, j2: int, i: int, j: int) -> bool {
    0 <= i2 && 0 <= j2 < 3 && (i2 < i || (i2 == i && j2 < j))
}

/// Among the boxes and primaries before box `i`, primary `j`, the box `bi`
/// along primary `bj` is the first of the widest extent among the boxes
/// that can be split.
pub open spec fn leads(bs: Seq<ColorBox>, i: int, j: int, bi: int, bj: int) -> bool {
    &&& cell_before(bi, bj, i, j)
    &&& splittable(bs[bi])
    &&& forall|i2: int, j2: int| #![trigger bs[i2].width[j2]] cell_before(i2, j2, i, j) && splittable(bs[i2])
        ==> bs[i2].width[j2] <= bs[bi].width[bj]
    &&& forall|i2: int, j2: int| #![trigger bs[i2].width[j2]] cell_before(i2, j2, bi, bj) && splittable(bs[i2])
        ==> bs[i2].width[j2] < bs[bi].width[bj]
}

/// Some box of the first `n` can be split.
pub open spec fn any_splittable(bs: Seq<ColorBox>, n: int) -> bool {
    exists|i: int| 0 <= i < n && splittable(#[trigger] bs[i])
}

/// The box of the first `n`, and the primary, to split next: of the widest
/// extent along a primary among the boxes that can be split, the first by
/// box and then by primary.
pub open spec fn pick(bs: Seq<ColorBox>, n: int) -> (int, int) {
    choose|ij: (int, int)| leads(bs, n, 0, ij.0, ij.1)
}

/// Median cut of the first `n` boxes: while there are fewer than `target`
/// boxes and one can be split, the box `pick` names is split along its
/// primary (`split_box`), its first part staying in its place and the second
/// becoming box `n`. The boxes and their number at the end.
pub open spec fn subdivide(ca: Seq<QuantizedColor>, bs: Seq<ColorBox>, n: int, target: int) -> (Seq<ColorBox>, int)
    decreases target - n,
{
    if n >= target || n >= 256 || !any_splittable(bs, n) {
        (bs, n)
    } else {
        let (i, j) = pick(bs, n);
        let (lo, hi) = split_box(ca, bs[i], j);
        subdivide(ca, bs.update(i, lo).update(n, hi), n + 1, target)
    }
}

/// Only one box and primary leads.
proof fn lemma_leads_unique(bs: Seq<ColorBox>, i: int, j: int, a: (int, int), b: (int, int))
    requires
        leads(bs, i, j, a.0, a.1),
        leads(bs, i, j, b.0, b.1),
    ensures
        a == b,
{
    if cell_before(a.0, a.1, b.0, b.1) {
        assert(bs[a.0].width[a.1] < bs[b.0].width[b.1]);
        assert(bs[b.0].width[b.1] <= bs[a.0].width[a.1]);
    } else if cell_before(b.0, b.1, a.0, a.1) {
        assert(bs[b.0].width[b.1] < bs[a.0].width[a.1]);
        assert(bs[a.0].width[a.1] <= bs[b.0].width[b.1]);
    }
}

/// Boxes of at least one color hold at least one color each, and one more
/// when one of them can be split.
proof fn lemma_entries_at_least(subs: Seq<ColorSubdiv>, m: int, i: int)
    requires
        0 <= m <= subs.len(),
        forall|k: int| 0 <= k < m ==> (#[trigger] subs[k]).color_indices@.len() >= 1,
    ensures
        entries_ms(subs, m).len() >= m,
        0 <= i < m && subs[i].color_indices@.len() > 1 ==> entries_ms(subs, m).len() >= m + 1,
    decreases m,
{
    if m > 0 {
        lemma_entries_at_least(subs, m - 1, i);
        subs[m - 1].color_indices@.to_multiset_ensures();
    }
}

/// Split boxes until there are `color_map_size` of them or none holds more
/// than one color: each time, the box to split is the one, among those
/// with more than one color, with the widest extent along some primary (the
/// first such, by box and then primary), split along that primary.
pub fn subdiv_color_map(
    subdivs: &mut Vec<ColorSubdiv>,
    color_map_size: usize,
    new_color_map_size: &mut usize,
    color_array: &mut [QuantizedColor],
) -> (r: bool)
    requires
        colors_ok(old(color_array)@),
        subdivs_ok(old(color_array)@, old(subdivs)@, *old(new_color_map_size) as int),
        color_map_size <= 256 || entries_ms(old(subdivs)@, *old(new_color_map_size) as int).len() <= 256,
    ensures
        r,
        final(color_array)@ == old(color_array)@,
        subdivs_ok(final(color_array)@, final(subdivs)@, *final(new_color_map_size) as int),
        *old(new_color_map_size) <= *final(new_color_map_size),
        *old(new_color_map_size) >= color_map_size ==> *final(new_color_map_size) == *old(new_color_map_size),
        *old(new_color_map_size) < color_map_size ==> *final(new_color_map_size) <= color_map_size,
        *final(new_color_map_size) < color_map_size ==> forall|k: int|
            0 <= k < *final(new_color_map_size) ==> (#[trigger] final(subdivs)@[k]).num_entries <= 1,
        entries_ms(final(subdivs)@, *final(new_color_map_size) as int) == entries_ms(
            old(subdivs)@,
            *old(new_color_map_size) as int,
        ),
        forall|k: int| *final(new_color_map_size) <= k < 256 ==> final(subdivs)@[k] == old(subdivs)@[k],
        subdivide(old(color_array)@, boxes_view(old(subdivs)@), *old(new_color_map_size) as int, color_map_size as int)
            == (boxes_view(final(subdivs)@), *final(new_color_map_size) as int),
{
    let ghost n0 = *new_color_map_size;
    let ghost subs0 = subdivs@;
    while color_map_size > *new_color_map_size
        invariant
            colors_ok(color_array@),
            color_array@ == old(color_array)@,
            subs0 == old(subdivs)@,
            n0 == *old(new_color_map_size),
            color_map_size <= 256 || entries_ms(subs0, n0 as int).len() <= 256,
            subdivs_ok(color_array@, subdivs@, *new_color_map_size as int),
            n0 <= *new_color_map_size,
            n0 < color_map_size ==> *new_color_map_size <= color_map_size,
            n0 >= color_map_size ==> *new_color_map_size == n0,
            entries_ms(subdivs@, *new_color_map_size as int) == entries_ms(subs0, n0 as int),
            forall|k: int| *new_color_map_size <= k < 256 ==> subdivs@[k] == subs0[k],
            subdivide(color_array@, boxes_view(subs0), n0 as int, color_map_size as int)
                == subdivide(color_array@, boxes_view(subdivs@), *new_color_map_size as int, color_map_size as int),
        decreases color_map_size - *new_color_map_size,
    {
        let n = *new_color_map_size;
        let ghost bs = boxes_view(subdivs@);
        let mut max_size: i32 = -1;
        let mut index: usize = 0;
        let mut sort_rgb_axis: usize = 0;
        let mut i: usize = 0;
        while i < n
            invariant
                i <= n,
                n <= 256,
                subdivs@.len() == 256,
                max_size == -1 ==> forall|k: int| 0 <= k < i ==> (#[trigger] subdivs@[k]).num_entries <= 1,
                max_size >= 0 ==> index < i && subdivs@[index as int].num_entries > 1 && sort_rgb_axis < 3,
                max_size >= -1,
                bs == boxes_view(subdivs@),
                subdivs_ok(color_array@, subdivs@, n as int),
                max_size >= 0 ==> leads(bs, i as int, 0, index as int, sort_rgb_axis as int)
                    && max_size == bs[index as int].width[sort_rgb_axis as int],
            decreases n - i,
        {
            let mut j: usize = 0;
            while j < 3
                invariant
                    j <= 3,
                    i < n,
                    n <= 256,
                    subdivs@.len() == 256,
                    max_size == -1 ==> (forall|k: int| 0 <= k < i ==> (#[trigger] subdivs@[k]).num_entries <= 1)
                        && (j > 0 ==> subdivs@[i as int].num_entries <= 1),
                    max_size >= 0 ==> index <= i && subdivs@[index as int].num_entries > 1 && sort_rgb_axis < 3,
                    max_size >= -1,
                    bs == boxes_view(subdivs@),
                    subdivs_ok(color_array@, subdivs@, n as int),
                    max_size >= 0 ==> leads(bs, i as int, j as int, index as int, sort_rgb_axis as int)
                        && max_size == bs[index as int].width[sort_rgb_axis as int],
                    max_size == -1 ==> forall|i2: int| 0 <= i2 < i ==> !splittable(#[trigger] bs[i2]),
                    max_size == -1 && j > 0 ==> !splittable(bs[i as int]),
                decreases 3 - j,
            {
                let w = subdivs[i].rgb_width[j] as i32;
                proof {
                    assert(bs[i as int] == box_view(subdivs@[i as int]));
                    assert(subdiv_ok(color_array@, subdivs@[i as int]));
                }
                if w > max_size && subdivs[i].num_entries > 1 {
                    max_size = w;
                    index = i;
                    sort_rgb_axis = j;
                }
                j = j + 1;
            }
            i = i + 1;
        }
        if max_size == -1 {
            proof {
                assert(!any_splittable(bs, n as int)) by {
                    assert forall|k: int| 0 <= k < n implies !splittable(#[trigger] bs[k]) by {
                        assert(subdiv_ok(color_array@, subdivs@[k]));
                    }
                }
            }
            return true;
        }
        proof {
            if n >= 256 {
                assert forall|k: int| 0 <= k < n implies (#[trigger] subdivs@[k]).color_indices@.len() >= 1 by {
                    assert(subdiv_ok(color_array@, subdivs@[k]));
                }
                assert(subdiv_ok(color_array@, subdivs@[index as int]));
                lemma_entries_at_least(subdivs@, n as int, index as int);
            }
            let w = (index as int, sort_rgb_axis as int);
            assert(leads(bs, n as int, 0, w.0, w.1));
            assert(leads(bs, n as int, 0, pick(bs, n as int).0, pick(bs, n as int).1));
            lemma_leads_unique(bs, n as int, 0, pick(bs, n as int), w);
            assert(any_splittable(bs, n as int)) by {
                assert(splittable(bs[index as int]));
            }
        }
        split_subdiv(subdivs, index, sort_rgb_axis, n, color_array);
        *new_color_map_size = n + 1;
        proof {
            let (lo, hi) = split_box(color_array@, bs[index as int], sort_rgb_axis as int);
            assert(boxes_view(subdivs@) =~= bs.update(index as int, lo).update(n as int, hi));
        }
    }
    true
}

/// The primaries, 5 bits each, of 15-bit color `c`.
pub open spec fn prim(c: int, ch: int) -> int {
    if ch == 0 {
        c / 1024
    } else if ch == 1 {
        (c / 32) % 32
    } else {
        c % 32
    }
}

/// The 15-bit color of an 8-bit RGB pixel: the top 5 bits of each primary.
pub open spec fn color15(r: u8, g: u8, b: u8) -> int {
    (r / 8) as int * 1024 + (g / 8) as int * 32 + (b / 8) as int
}

/// The 15-bit color of pixel `p`.
pub open spec fn pixel_color(red: Seq<u8>, green: Seq<u8>, blue: Seq<u8>, p: int) -> int {
    color15(red[p], green[p], blue[p])
}

/// Some pixel below `n` has 15-bit color `c`.
pub open spec fn color_occurs(red: Seq<u8>, green: Seq<u8>, blue: Seq<u8>, n: int, c: int) -> bool {
    exists|p: int| 0 <= p < n && pixel_color(red, green, blue, p) == c
}

/// The 15-bit colors below `m` that some pixel below `n` has, ascending.
pub open spec fn occurring(red: Seq<u8>, green: Seq<u8>, blue: Seq<u8>, n: int, m: int) -> Seq<usize>
    decreases m,
{
    if m <= 0 {
        Seq::empty()
    } else if color_occurs(red, green, blue, n, m - 1) {
        occurring(red, green, blue, n, m - 1).push((m - 1) as usize)
    } else {
        occurring(red, green, blue, n, m - 1)
    }
}

/// The colors below `m` with a positive count, ascending.
pub open spec fn nonzero_upto(ca: Seq<QuantizedColor>, m: int) -> Seq<usize>
    decreases m,
{
    if m <= 0 {
        Seq::empty()
    } else if ca[m - 1].count > 0 {
        nonzero_upto(ca, m - 1).push((m - 1) as usize)
    } else {
        nonzero_upto(ca, m - 1)
    }
}

/// The table of all 15-bit colors, color `c` at index `c`.
pub open spec fn color_table_ok(ca: Seq<QuantizedColor>) -> bool {
    &&& ca.len() == COLOR_ARRAY_SIZE
    &&& forall|c: int| 0 <= c < COLOR_ARRAY_SIZE ==> {
        &&& (#[trigger] ca[c]).rgb@[0] == prim(c, 0)
        &&& ca[c].rgb@[1] == prim(c, 1)
        &&& ca[c].rgb@[2] == prim(c, 2)
        &&& ca[c].count >= 0
    }
}

proof fn lemma_table_colors_ok(ca: Seq<QuantizedColor>)
    requires
        color_table_ok(ca),
    ensures
        colors_ok(ca),
{
    assert forall|i: int| 0 <= i < ca.len() implies {
        &&& (#[trigger] ca[i]).rgb@[0] < 32
        &&& ca[i].rgb@[1] < 32
        &&& ca[i].rgb@[2] < 32
        &&& ca[i].count >= 0
    } by {
        assert(ca[i].rgb@[0] == prim(i, 0));
    }
}

proof fn lemma_color15_bits(r: u8, g: u8, b: u8)
    ensures
        ((((r >> 3u8) as usize) << 10usize) | (((g >> 3u8) as usize) << 5usize) | ((b >> 3u8) as usize)) as int
            == color15(r, g, b),
        0 <= color15(r, g, b) < COLOR_ARRAY_SIZE,
{
    let rr = r >> 3u8;
    let gg = g >> 3u8;
    let bb = b >> 3u8;
    assert((r >> 3u8) == r / 8 && (g >> 3u8) == g / 8 && (b >> 3u8) == b / 8 && (r >> 3u8) < 32 && (g >> 3u8) < 32
        && (b >> 3u8) < 32) by (bit_vector);
    let x = rr as u64;
    let y = gg as u64;
    let z = bb as u64;
    assert(x < 32 && y < 32 && z < 32 ==> ((x << 10u64) | (y << 5u64) | z) == x * 1024 + y * 32 + z) by (bit_vector);
    assert((((rr as usize) << 10usize) | ((gg as usize) << 5usize) | (bb as usize)) as u64
        == ((x << 10u64) | (y << 5u64) | z)) by (bit_vector)
        requires x == rr as u64, y == gg as u64, z == bb as u64, rr < 32, gg < 32, bb < 32;
}

proof fn lemma_index_bits(i: usize)
    requires
        i < COLOR_ARRAY_SIZE,
    ensures
        (i >> 10usize) as u8 == prim(i as int, 0),
        ((i >> 5usize) & 0x1f) as u8 == prim(i as int, 1),
        (i & 0x1f) as u8 == prim(i as int, 2),
{
    assert((i >> 10usize) == i / 1024 && (i >> 5usize) & 0x1f == (i / 32) % 32 && i & 0x1f == i % 32)
        by (bit_vector);
    assert(i / 1024 < 32);
}

/// The primaries of 15-bit color `c`.
pub open spec fn rgb15(c: int) -> [u8; 3] {
    [prim(c, 0) as u8, prim(c, 1) as u8, prim(c, 2) as u8]
}

/// How many of the pixels below `n` have 15-bit color `c`.
pub open spec fn pixels_with(red: Seq<u8>, green: Seq<u8>, blue: Seq<u8>, n: int, c: int) -> int
    decreases n,
{
    if n <= 0 {
        0
    } else {
        pixels_with(red, green, blue, n - 1, c) + (if pixel_color(red, green, blue, n - 1) == c { 1int } else { 0int })
    }
}

/// The table of the 15-bit colors, color `c` at index `c`, each with the
/// number of the first `n` pixels that have it.
pub open spec fn color_table(red: Seq<u8>, green: Seq<u8>, blue: Seq<u8>, n: int) -> Seq<QuantizedColor> {
    Seq::new(COLOR_ARRAY_SIZE as nat, |c: int| QuantizedColor {
        rgb: rgb15(c),
        new_color_index: 0,
        count: pixels_with(red, green, blue, n, c) as i64,
    })
}

proof fn lemma_pixels_with_bound(red: Seq<u8>, green: Seq<u8>, blue: Seq<u8>, n: int, c: int)
    requires
        0 <= n,
    ensures
        0 <= pixels_with(red, green, blue, n, c) <= n,
    decreases n,
{
    if n > 0 {
        lemma_pixels_with_bound(red, green, blue, n - 1, c);
    }
}

/// The 15-bit color table with every count zero.
fn new_color_array() -> (r: Vec<QuantizedColor>)
    ensures
        color_table_ok(r@),
        forall|c: int| 0 <= c < COLOR_ARRAY_SIZE ==> (#[trigger] r@[c]).count == 0,
        forall|c: int| 0 <= c < COLOR_ARRAY_SIZE ==> #[trigger] r@[c] == (QuantizedColor {
            rgb: rgb15(c),
            new_color_index: 0,
            count: 0,
        }),
{
    let mut v: Vec<QuantizedColor> = Vec::new();
    let mut i: usize = 0;
    while i < COLOR_ARRAY_SIZE
        invariant
            i <= COLOR_ARRAY_SIZE,
            v@.len() == i,
            forall|c: int| 0 <= c < i ==> {
                &&& (#[trigger] v@[c]).rgb@[0] == prim(c, 0)
                &&& v@[c].rgb@[1] == prim(c, 1)
                &&& v@[c].rgb@[2] == prim(c, 2)
                &&& v@[c].count == 0
            },
            forall|c: int| 0 <= c < i ==> #[trigger] v@[c] == (QuantizedColor {
                rgb: rgb15(c),
                new_color_index: 0,
                count: 0,
            }),
        decreases COLOR_ARRAY_SIZE - i,
    {
        proof {
            lemma_index_bits(i);
        }
        let rgb: [u8; 3] = [(i >> 10usize) as u8, ((i >> 5usize) & 0x1f) as u8, (i & 0x1f) as u8];
        assert(rgb == rgb15(i as int));
        v.push(QuantizedColor { rgb: rgb, new_color_index: 0, count: 0 });
        i = i + 1;
    }
    v
}

/// The sum of the counts of the first `m` colors.
pub open spec fn total_count(ca: Seq<QuantizedColor>, m: int) -> int
    decreases m,
{
    if m <= 0 {
        0
    } else {
        total_count(ca, m - 1) + ca[m - 1].count
    }
}

proof fn lemma_total_count_bump(ca: Seq<QuantizedColor>, x: int, q: QuantizedColor, m: int)
    requires
        0 <= x < ca.len(),
        0 <= m <= ca.len(),
    ensures
        total_count(ca.update(x, q), m) == total_count(ca, m) + (if x < m { q.count - ca[x].count } else { 0 }),
    decreases m,
{
    if m > 0 {
        lemma_total_count_bump(ca, x, q, m - 1);
    }
}

proof fn lemma_nonzero_sum(ca: Seq<QuantizedColor>, m: int)
    requires
        ca.len() == COLOR_ARRAY_SIZE,
        0 <= m <= ca.len(),
    ensures
        count_sum(ca, nonzero_upto(ca, m)) == total_count(ca, m) - zero_sum(ca, m),
    decreases m,
{
    if m > 0 {
        lemma_nonzero_sum(ca, m - 1);
        if ca[m - 1].count > 0 {
            let s = nonzero_upto(ca, m - 1).push((m - 1) as usize);
            assert(s.drop_last() =~= nonzero_upto(ca, m - 1));
        }
    }
}

/// The sum of the counts that are not positive among the first `m`.
pub open spec fn zero_sum(ca: Seq<QuantizedColor>, m: int) -> int
    decreases m,
{
    if m <= 0 {
        0
    } else {
        zero_sum(ca, m - 1) + (if ca[m - 1].count > 0 { 0 } else { ca[m - 1].count })
    }
}

proof fn lemma_zero_sum_zero(ca: Seq<QuantizedColor>, m: int)
    requires
        0 <= m <= ca.len(),
        forall|c: int| 0 <= c < m ==> (#[trigger] ca[c]).count >= 0,
    ensures
        zero_sum(ca, m) == 0,
    decreases m,
{
    if m > 0 {
        lemma_zero_sum_zero(ca, m - 1);
    }
}

proof fn lemma_nonzero_is_occurring(ca: Seq<QuantizedColor>, red: Seq<u8>, green: Seq<u8>, blue: Seq<u8>, n: int, m: int)
    requires
        ca.len() == COLOR_ARRAY_SIZE,
        0 <= m <= ca.len(),
        forall|c: int| 0 <= c < ca.len() ==> ((#[trigger] ca[c]).count > 0 <==> color_occurs(red, green, blue, n, c)),
    ensures
        nonzero_upto(ca, m) == occurring(red, green, blue, n, m),
    decreases m,
{
    if m > 0 {
        lemma_nonzero_is_occurring(ca, red, green, blue, n, m - 1);
        assert(ca[m - 1].count > 0 <==> color_occurs(red, green, blue, n, m - 1));
    }
}

proof fn lemma_nonzero_props(ca: Seq<QuantizedColor>, m: int)
    requires
        ca.len() == COLOR_ARRAY_SIZE,
        0 <= m <= ca.len(),
    ensures
        indices_in(ca, nonzero_upto(ca, m)),
        forall|k: int| 0 <= k < nonzero_upto(ca, m).len() ==> ca[#[trigger] nonzero_upto(ca, m)[k] as int].count > 0,
        forall|c: int| 0 <= c < m && ca[c].count > 0 ==> #[trigger] nonzero_upto(ca, m).contains(c as usize),
    decreases m,
{
    if m > 0 {
        lemma_nonzero_props(ca, m - 1);
        let s0 = nonzero_upto(ca, m - 1);
        if ca[m - 1].count > 0 {
            let s = s0.push((m - 1) as usize);
            assert forall|c: int| 0 <= c < m && ca[c].count > 0 implies #[trigger] s.contains(c as usize) by {
                if c < m - 1 {
                    assert(s0.contains(c as usize));
                    let k = choose|k: int| 0 <= k < s0.len() && s0[k] == c as usize;
                    assert(s[k] == c as usize);
                } else {
                    assert(s[s.len() - 1] == c as usize);
                }
            }
        }
    }
}

/// The sum of primary `ch` over the colors `part`.
pub open spec fn prim_sum(part: Seq<usize>, ch: int) -> int
    decreases part.len(),
{
    if part.len() == 0 {
        0
    } else {
        prim_sum(part.drop_last(), ch) + prim(part.last() as int, ch)
    }
}

/// The average of the colors `part`, scaled back to 8 bits per primary.
pub open spec fn avg_color(part: Seq<usize>) -> GifColorType {
    GifColorType {
        Red: ((prim_sum(part, 0) * 8) / (part.len() as int)) as u8,
        Green: ((prim_sum(part, 1) * 8) / (part.len() as int)) as u8,
        Blue: ((prim_sum(part, 2) * 8) / (part.len() as int)) as u8,
    }
}

/// The colors of the first `k` parts, with repetitions.
pub open spec fn parts_ms(parts: Seq<Seq<usize>>, k: int) -> Multiset<usize>
    decreases k,
{
    if k <= 0 {
        Multiset::empty()
    } else {
        parts_ms(parts, k - 1).add(parts[k - 1].to_multiset())
    }
}

/// The output of quantizing `n` pixels through a partition `parts` of the
/// 15-bit colors that occur: each part is an entry of the color map, the
/// average of its colors, and each pixel gets the entry whose part holds
/// its color.
pub open spec fn quantized_by(
    parts: Seq<Seq<usize>>,
    red: Seq<u8>,
    green: Seq<u8>,
    blue: Seq<u8>,
    n: int,
    out: Seq<u8>,
    map: Seq<GifColorType>,
) -> bool {
    &&& parts_ms(parts, parts.len() as int) == occurring(red, green, blue, n, COLOR_ARRAY_SIZE as int).to_multiset()
    &&& forall|j: int| 0 <= j < parts.len() ==> (#[trigger] parts[j]).len() >= 1
    &&& forall|p: int| 0 <= p < n ==> (#[trigger] out[p]) < parts.len() && parts[out[p] as int].contains(
        pixel_color(red, green, blue, p) as usize,
    )
    &&& forall|j: int| 0 <= j < parts.len() ==> #[trigger] map[j] == avg_color(parts[j])
}

proof fn lemma_prim_sum_bound(part: Seq<usize>, ch: int)
    requires
        forall|k: int| 0 <= k < part.len() ==> #[trigger] part[k] < COLOR_ARRAY_SIZE,
    ensures
        0 <= prim_sum(part, ch) <= 31 * part.len(),
    decreases part.len(),
{
    if part.len() > 0 {
        let d = part.drop_last();
        assert forall|k: int| 0 <= k < d.len() implies #[trigger] d[k] < COLOR_ARRAY_SIZE by {
            assert(d[k] == part[k]);
        }
        lemma_prim_sum_bound(d, ch);
        assert(part.last() == part[part.len() - 1]);
    }
}

proof fn lemma_parts_ms(subs: Seq<ColorSubdiv>, parts: Seq<Seq<usize>>, k: int)
    requires
        0 <= k <= parts.len(),
        k <= subs.len(),
        forall|j: int| 0 <= j < k ==> #[trigger] parts[j] == subs[j].color_indices@,
    ensures
        parts_ms(parts, k) == entries_ms(subs, k),
    decreases k,
{
    if k > 0 {
        lemma_parts_ms(subs, parts, k - 1);
    }
}

proof fn lemma_entries_cover(subs: Seq<ColorSubdiv>, k: int, x: usize) -> (j: int)
    requires
        0 <= k <= subs.len(),
        entries_ms(subs, k).count(x) > 0,
    ensures
        0 <= j < k,
        subs[j].color_indices@.contains(x),
    decreases k,
{
    if subs[k - 1].color_indices@.to_multiset().count(x) > 0 {
        k - 1
    } else {
        lemma_entries_cover(subs, k - 1, x)
    }
}

proof fn lemma_occurring_contains(red: Seq<u8>, green: Seq<u8>, blue: Seq<u8>, n: int, m: int, c: int)
    requires
        0 <= c < m <= COLOR_ARRAY_SIZE,
        color_occurs(red, green, blue, n, c),
    ensures
        occurring(red, green, blue, n, m).contains(c as usize),
    decreases m,
{
    let s0 = occurring(red, green, blue, n, m - 1);
    if c == m - 1 {
        let s = s0.push(c as usize);
        assert(s[s.len() - 1] == c as usize);
    } else {
        lemma_occurring_contains(red, green, blue, n, m - 1, c);
        if color_occurs(red, green, blue, n, m - 1) {
            let s = s0.push((m - 1) as usize);
            let k = choose|k: int| 0 <= k < s0.len() && s0[k] == c as usize;
            assert(s[k] == c as usize);
        }
    }
}

/// Color `c` carries the index of a box below `m` that holds it.
pub open spec fn tagged(ca: Seq<QuantizedColor>, subs: Seq<ColorSubdiv>, m: int, c: int) -> bool {
    &&& ca[c].new_color_index < m
    &&& subs[ca[c].new_color_index as int].color_indices@.contains(c as usize)
}

/// Color `c` is held by one of the first `m` boxes.
pub open spec fn held(subs: Seq<ColorSubdiv>, m: int, c: int) -> bool {
    exists|j: int| 0 <= j < m && #[trigger] subs[j].color_indices@.contains(c as usize)
}

/// The colors and counts of `ca` are those of `ca1`.
pub open spec fn same_colors(ca: Seq<QuantizedColor>, ca1: Seq<QuantizedColor>) -> bool {
    &&& ca.len() == ca1.len()
    &&& forall|c: int| 0 <= c < ca1.len() ==> (#[trigger] ca[c]).rgb == ca1[c].rgb && ca[c].count == ca1[c].count
}

proof fn lemma_occurring_len(red: Seq<u8>, green: Seq<u8>, blue: Seq<u8>, n: int, m: int)
    requires
        m >= 0,
    ensures
        occurring(red, green, blue, n, m).len() <= m,
    decreases m,
{
    if m > 0 {
        lemma_occurring_len(red, green, blue, n, m - 1);
    }
}

proof fn lemma_entries_len(subs: Seq<ColorSubdiv>, m: int, i: int)
    requires
        0 <= i < m <= subs.len(),
    ensures
        subs[i].color_indices@.len() <= entries_ms(subs, m).len(),
    decreases m,
{
    subs[m - 1].color_indices@.to_multiset_ensures();
    if i < m - 1 {
        lemma_entries_len(subs, m - 1, i);
    }
}

/// Count the pixels of each 15-bit color.
fn count_colors(num_pixels: usize, red_input: &[u8], green_input: &[u8], blue_input: &[u8]) -> (ca: Vec<QuantizedColor>)
    requires
        num_pixels <= red_input@.len(),
        num_pixels <= green_input@.len(),
        num_pixels <= blue_input@.len(),
        num_pixels <= i64::MAX,
    ensures
        color_table_ok(ca@),
        total_count(ca@, COLOR_ARRAY_SIZE as int) == num_pixels,
        forall|c: int| 0 <= c < COLOR_ARRAY_SIZE ==> ((#[trigger] ca@[c]).count > 0 <==> color_occurs(
            red_input@, green_input@, blue_input@, num_pixels as int, c)),
        ca@ == color_table(red_input@, green_input@, blue_input@, num_pixels as int),
{
    let ghost red = red_input@;
    let ghost green = green_input@;
    let ghost blue = blue_input@;
    let mut color_array = new_color_array();
    let mut i: usize = 0;
    proof {
        lemma_zero_totals(color_array@, COLOR_ARRAY_SIZE as int);
    }
    while i < num_pixels
        invariant
            num_pixels <= red.len() && num_pixels <= green.len() && num_pixels <= blue.len(),
            num_pixels <= i64::MAX,
            red == red_input@ && green == green_input@ && blue == blue_input@,
            i <= num_pixels,
            color_table_ok(color_array@),
            forall|c: int| 0 <= c < COLOR_ARRAY_SIZE ==> (#[trigger] color_array@[c]).count <= i,
            total_count(color_array@, COLOR_ARRAY_SIZE as int) == i,
            forall|c: int| 0 <= c < COLOR_ARRAY_SIZE ==> ((#[trigger] color_array@[c]).count > 0 <==> color_occurs(
                red, green, blue, i as int, c)),
            color_array@.len() == COLOR_ARRAY_SIZE,
            forall|c: int| 0 <= c < COLOR_ARRAY_SIZE ==> #[trigger] color_array@[c] == (QuantizedColor {
                rgb: rgb15(c),
                new_color_index: 0,
                count: pixels_with(red, green, blue, i as int, c) as i64,
            }),
        decreases num_pixels - i,
    {
        proof {
            lemma_color15_bits(red_input@[i as int], green_input@[i as int], blue_input@[i as int]);
        }
        let index = (((red_input[i] >> 3u8) as usize) << 10usize) | (((green_input[i] >> 3u8) as usize) << 5usize)
            | ((blue_input[i] >> 3u8) as usize);
        let q = color_array[index];
        let ghost ca0 = color_array@;
        color_array.set(index, QuantizedColor { rgb: q.rgb, new_color_index: q.new_color_index, count: q.count + 1 });
        proof {
            assert forall|c: int| 0 <= c < COLOR_ARRAY_SIZE implies #[trigger] color_array@[c] == (QuantizedColor {
                rgb: rgb15(c),
                new_color_index: 0,
                count: pixels_with(red, green, blue, i + 1, c) as i64,
            }) by {
                lemma_pixels_with_bound(red, green, blue, i as int, c);
                if c != index {
                    assert(color_array@[c] == ca0[c]);
                }
            }
            lemma_total_count_bump(ca0, index as int, color_array@[index as int], COLOR_ARRAY_SIZE as int);
            assert forall|c: int| 0 <= c < COLOR_ARRAY_SIZE implies ((#[trigger] color_array@[c]).count > 0 <==> color_occurs(
                red, green, blue, i + 1, c)) by {
                if c == index {
                    assert(pixel_color(red, green, blue, i as int) == c);
                } else {
                    assert(color_array@[c] == ca0[c]);
                    if color_occurs(red, green, blue, i + 1, c) {
                        let p = choose|p: int| 0 <= p < i + 1 && pixel_color(red, green, blue, p) == c;
                        assert(p != i);
                    }
                    if color_occurs(red, green, blue, i as int, c) {
                        let p = choose|p: int| 0 <= p < i && pixel_color(red, green, blue, p) == c;
                        assert(0 <= p < i + 1);
                    }
                }
            }
            assert forall|c: int| 0 <= c < COLOR_ARRAY_SIZE implies {
                &&& (#[trigger] color_array@[c]).rgb@[0] == prim(c, 0)
                &&& color_array@[c].rgb@[1] == prim(c, 1)
                &&& color_array@[c].rgb@[2] == prim(c, 2)
                &&& color_array@[c].count >= 0
            } by {
                if c != index {
                    assert(color_array@[c] == ca0[c]);
                }
            }
            assert forall|c: int| 0 <= c < COLOR_ARRAY_SIZE implies (#[trigger] color_array@[c]).count <= i + 1 by {
                if c != index {
                    assert(color_array@[c] == ca0[c]);
                }
            }
        }
        i = i + 1;
    }
    assert(color_array@ =~= color_table(red, green, blue, num_pixels as int));
    color_array
}

/// The colors with a positive count, ascending.
fn nonzero_colors(ca: &Vec<QuantizedColor>) -> (r: Vec<usize>)
    requires
        ca@.len() == COLOR_ARRAY_SIZE,
    ensures
        r@ == nonzero_upto(ca@, COLOR_ARRAY_SIZE as int),
{
    let mut non_empty: Vec<usize> = Vec::new();
    let mut c: usize = 0;
    while c < COLOR_ARRAY_SIZE
        invariant
            c <= COLOR_ARRAY_SIZE,
            ca@.len() == COLOR_ARRAY_SIZE,
            non_empty@ == nonzero_upto(ca@, c as int),
        decreases COLOR_ARRAY_SIZE - c,
    {
        if ca[c].count > 0 {
            non_empty.push(c);
        }
        c = c + 1;
    }
    non_empty
}

/// Give the colors of box `i` index `i`, and return the sums of their
/// primaries.
fn tag_box(
    subdivs: &Vec<ColorSubdiv>,
    i: usize,
    k: usize,
    color_array: &mut Vec<QuantizedColor>,
    Ghost(ca1): Ghost<Seq<QuantizedColor>>,
) -> (r: (i64, i64, i64))
    requires
        i < k <= 256,
        subdivs_ok(ca1, subdivs@, k as int),
        color_table_ok(ca1),
        same_colors(old(color_array)@, ca1),
        subdivs@[i as int].color_indices@.len() <= COLOR_ARRAY_SIZE,
        forall|c: int| #![trigger tagged(old(color_array)@, subdivs@, i as int, c)]
            0 <= c < COLOR_ARRAY_SIZE && held(subdivs@, i as int, c) ==> tagged(old(color_array)@, subdivs@, i as int, c),
    ensures
        same_colors(final(color_array)@, ca1),
        forall|c: int| #![trigger tagged(final(color_array)@, subdivs@, i + 1, c)]
            0 <= c < COLOR_ARRAY_SIZE && held(subdivs@, i + 1, c) ==> tagged(final(color_array)@, subdivs@, i + 1, c),
        r.0 == prim_sum(subdivs@[i as int].color_indices@, 0),
        r.1 == prim_sum(subdivs@[i as int].color_indices@, 1),
        r.2 == prim_sum(subdivs@[i as int].color_indices@, 2),
{
    let idxs = subdivs[i].color_indices.as_slice();
    let ghost part = subdivs@[i as int].color_indices@;
    let ghost subs = subdivs@;
    assert(subdiv_ok(ca1, subs[i as int]));
    let mut red_sum: i64 = 0;
    let mut green_sum: i64 = 0;
    let mut blue_sum: i64 = 0;
    let mut t: usize = 0;
    proof {
        assert(part.take(0) =~= Seq::<usize>::empty());
        assert forall|c: int| #![trigger tagged(color_array@, subs, i + 1, c)]
            0 <= c < COLOR_ARRAY_SIZE && (held(subs, i as int, c) || part.take(0).contains(c as usize))
            implies tagged(color_array@, subs, i + 1, c) by {
            if held(subs, i as int, c) {
                assert(tagged(color_array@, subs, i as int, c));
            }
        }
    }
    while t < idxs.len()
        invariant
            idxs@ == part,
            part == subs[i as int].color_indices@,
            subs == subdivs@,
            t <= part.len(),
            i < k,
            k <= 256,
            subdiv_ok(ca1, subs[i as int]),
            part.len() <= COLOR_ARRAY_SIZE,
            same_colors(color_array@, ca1),
            color_table_ok(ca1),
            red_sum == prim_sum(part.take(t as int), 0),
            green_sum == prim_sum(part.take(t as int), 1),
            blue_sum == prim_sum(part.take(t as int), 2),
            forall|c: int| #![trigger tagged(color_array@, subs, i + 1, c)]
                0 <= c < COLOR_ARRAY_SIZE && (held(subs, i as int, c) || part.take(t as int).contains(c as usize))
                    ==> tagged(color_array@, subs, i + 1, c),
        decreases part.len() - t,
    {
        let ci = idxs[t];
        let q = color_array[ci];
        let ghost ca_b = color_array@;
        proof {
            assert(ci < ca1.len());
            let pt = part.take(t + 1);
            assert(pt.drop_last() =~= part.take(t as int));
            assert(pt.last() == ci);
            assert forall|kk: int| 0 <= kk < pt.len() implies #[trigger] pt[kk] < COLOR_ARRAY_SIZE by {
                assert(pt[kk] == part[kk]);
            }
            lemma_prim_sum_bound(pt, 0);
            lemma_prim_sum_bound(pt, 1);
            lemma_prim_sum_bound(pt, 2);
            assert(ca1[ci as int].rgb@[0] == prim(ci as int, 0));
            assert(q.rgb@[0] == prim(ci as int, 0));
            assert(q.rgb@[1] == prim(ci as int, 1));
            assert(q.rgb@[2] == prim(ci as int, 2));
        }
        color_array.set(ci, QuantizedColor { rgb: q.rgb, new_color_index: i as u8, count: q.count });
        red_sum = red_sum + q.rgb[0] as i64;
        green_sum = green_sum + q.rgb[1] as i64;
        blue_sum = blue_sum + q.rgb[2] as i64;
        t = t + 1;
        proof {
            assert(subs[i as int].color_indices@.contains(ci)) by {
                assert(part[t - 1] == ci);
            }
            assert forall|c: int| #![trigger tagged(color_array@, subs, i + 1, c)]
                0 <= c < COLOR_ARRAY_SIZE && (held(subs, i as int, c) || part.take(t as int).contains(c as usize))
                implies tagged(color_array@, subs, i + 1, c) by {
                if c != ci {
                    assert(color_array@[c] == ca_b[c]);
                    if part.take(t as int).contains(c as usize) {
                        let kk = choose|kk: int| 0 <= kk < t && part.take(t as int)[kk] == c as usize;
                        assert(kk < t - 1);
                        assert(part.take(t - 1)[kk] == c as usize);
                    }
                    assert(tagged(ca_b, subs, i + 1, c));
                }
            }
            assert forall|c: int| 0 <= c < ca1.len() implies (#[trigger] color_array@[c]).rgb == ca1[c].rgb
                && color_array@[c].count == ca1[c].count by {
                if c != ci {
                    assert(color_array@[c] == ca_b[c]);
                }
            }
        }
    }
    proof {
        assert(part.take(part.len() as int) =~= part);
        assert forall|c: int| #![trigger tagged(color_array@, subs, i + 1, c)]
            0 <= c < COLOR_ARRAY_SIZE && held(subs, i + 1, c) implies tagged(color_array@, subs, i + 1, c) by {
            let jj = choose|jj: int| 0 <= jj < i + 1 && #[trigger] subs[jj].color_indices@.contains(c as usize);
            if jj < i {
                assert(held(subs, i as int, c));
            }
        }
    }
    (red_sum, green_sum, blue_sum)
}

/// Give every color of the first `k` boxes its box's index, and put each
/// box's average color in the map.
fn assign_boxes(
    subdivs: &Vec<ColorSubdiv>,
    k: usize,
    color_array: &mut Vec<QuantizedColor>,
    output_color_map: &mut [GifColorType],
    Ghost(ca1): Ghost<Seq<QuantizedColor>>,
)
    requires
        1 <= k <= 256,
        subdivs_ok(ca1, subdivs@, k as int),
        color_table_ok(ca1),
        same_colors(old(color_array)@, ca1),
        entries_ms(subdivs@, k as int).len() <= COLOR_ARRAY_SIZE,
        old(output_color_map)@.len() >= k,
    ensures
        same_colors(final(color_array)@, ca1),
        forall|c: int| #![trigger tagged(final(color_array)@, subdivs@, k as int, c)]
            0 <= c < COLOR_ARRAY_SIZE && held(subdivs@, k as int, c) ==> tagged(final(color_array)@, subdivs@, k as int, c),
        final(output_color_map)@.len() == old(output_color_map)@.len(),
        forall|j: int| 0 <= j < k ==> #[trigger] final(output_color_map)@[j] == avg_color(subdivs@[j].color_indices@),
        forall|j: int| k <= j < old(output_color_map)@.len() ==> #[trigger] final(output_color_map)@[j] == old(output_color_map)@[j],
{
    let ghost map1 = output_color_map@;
    let mut i: usize = 0;
    while i < k
        invariant
            1 <= k <= 256,
            subdivs_ok(ca1, subdivs@, k as int),
            color_table_ok(ca1),
            entries_ms(subdivs@, k as int).len() <= COLOR_ARRAY_SIZE,
            same_colors(color_array@, ca1),
            i <= k,
            output_color_map@.len() == map1.len(),
            map1.len() >= k,
            forall|j: int| 0 <= j < i ==> #[trigger] output_color_map@[j] == avg_color(subdivs@[j].color_indices@),
            forall|j: int| i <= j < map1.len() ==> #[trigger] output_color_map@[j] == map1[j],
            forall|c: int| #![trigger tagged(color_array@, subdivs@, i as int, c)]
                0 <= c < COLOR_ARRAY_SIZE && held(subdivs@, i as int, c) ==> tagged(color_array@, subdivs@, i as int, c),
        decreases k - i,
    {
        let j = subdivs[i].num_entries;
        proof {
            assert(subdiv_ok(ca1, subdivs@[i as int]));
            lemma_entries_len(subdivs@, k as int, i as int);
            let part = subdivs@[i as int].color_indices@;
            assert forall|kk: int| 0 <= kk < part.len() implies #[trigger] part[kk] < COLOR_ARRAY_SIZE by {}
            lemma_prim_sum_bound(part, 0);
            lemma_prim_sum_bound(part, 1);
            lemma_prim_sum_bound(part, 2);
        }
        let (red_sum, green_sum, blue_sum) = tag_box(subdivs, i, k, color_array, Ghost(ca1));
        if j > 0 {
            proof {
                let len = j as int;
                assert(0 <= (red_sum * 8) / len <= 248) by (nonlinear_arith)
                    requires 0 <= red_sum <= 31 * len, len >= 1;
                assert(0 <= (green_sum * 8) / len <= 248) by (nonlinear_arith)
                    requires 0 <= green_sum <= 31 * len, len >= 1;
                assert(0 <= (blue_sum * 8) / len <= 248) by (nonlinear_arith)
                    requires 0 <= blue_sum <= 31 * len, len >= 1;
            }
            output_color_map[i] = GifColorType {
                Red: ((red_sum * 8) / (j as i64)) as u8,
                Green: ((green_sum * 8) / (j as i64)) as u8,
                Blue: ((blue_sum * 8) / (j as i64)) as u8,
            };
        }
        i = i + 1;
    }
}

/// Put each pixel's box index in the output.
fn map_pixels(
    num_pixels: usize,
    red_input: &[u8],
    green_input: &[u8],
    blue_input: &[u8],
    color_array: &Vec<QuantizedColor>,
    output_buffer: &mut [u8],
    Ghost(subs): Ghost<Seq<ColorSubdiv>>,
    Ghost(k): Ghost<int>,
)
    requires
        num_pixels <= red_input@.len() && num_pixels <= green_input@.len() && num_pixels <= blue_input@.len(),
        num_pixels <= old(output_buffer)@.len(),
        color_array@.len() == COLOR_ARRAY_SIZE,
        0 <= k <= subs.len(),
        forall|c: int| #![trigger tagged(color_array@, subs, k, c)]
            0 <= c < COLOR_ARRAY_SIZE && held(subs, k, c) ==> tagged(color_array@, subs, k, c),
        entries_ms(subs, k) == occurring(red_input@, green_input@, blue_input@, num_pixels as int, COLOR_ARRAY_SIZE as int).to_multiset(),
    ensures
        final(output_buffer)@.len() == old(output_buffer)@.len(),
        forall|q: int| 0 <= q < num_pixels ==> (#[trigger] final(output_buffer)@[q]) < k
            && subs[final(output_buffer)@[q] as int].color_indices@.contains(
            pixel_color(red_input@, green_input@, blue_input@, q) as usize),
        forall|q: int| num_pixels <= q < old(output_buffer)@.len() ==> #[trigger] final(output_buffer)@[q] == old(output_buffer)@[q],
{
    let ghost red = red_input@;
    let ghost green = green_input@;
    let ghost blue = blue_input@;
    let ghost n = num_pixels as int;
    let mut p: usize = 0;
    while p < num_pixels
        invariant
            num_pixels <= red.len() && num_pixels <= green.len() && num_pixels <= blue.len(),
            num_pixels <= old(output_buffer)@.len(),
            red == red_input@ && green == green_input@ && blue == blue_input@,
            n == num_pixels,
            p <= num_pixels,
            color_array@.len() == COLOR_ARRAY_SIZE,
            0 <= k <= subs.len(),
            forall|c: int| #![trigger tagged(color_array@, subs, k, c)]
                0 <= c < COLOR_ARRAY_SIZE && held(subs, k, c) ==> tagged(color_array@, subs, k, c),
            entries_ms(subs, k) == occurring(red, green, blue, n, COLOR_ARRAY_SIZE as int).to_multiset(),
            output_buffer@.len() == old(output_buffer)@.len(),
            forall|q: int| 0 <= q < p ==> (#[trigger] output_buffer@[q]) < k && subs[output_buffer@[q] as int].color_indices@.contains(
                pixel_color(red, green, blue, q) as usize),
            forall|q: int| p <= q < old(output_buffer)@.len() ==> #[trigger] output_buffer@[q] == old(output_buffer)@[q],
        decreases num_pixels - p,
    {
        proof {
            lemma_color15_bits(red_input@[p as int], green_input@[p as int], blue_input@[p as int]);
        }
        let index = (((red_input[p] >> 3u8) as usize) << 10usize) | (((green_input[p] >> 3u8) as usize) << 5usize)
            | ((blue_input[p] >> 3u8) as usize);
        output_buffer[p] = color_array[index].new_color_index;
        proof {
            let c = pixel_color(red, green, blue, p as int);
            assert(color_occurs(red, green, blue, n, c));
            lemma_occurring_contains(red, green, blue, n, COLOR_ARRAY_SIZE as int, c);
            let occ = occurring(red, green, blue, n, COLOR_ARRAY_SIZE as int);
            occ.to_multiset_ensures();
            let jj = lemma_entries_cover(subs, k, c as usize);
            assert(held(subs, k, c));
            assert(tagged(color_array@, subs, k, c));
        }
        p = p + 1;
    }
}

/// The boxes that quantizing starts from: the colors `colors`, with `n`
/// pixels, in one box spanning the whole color space, then empty boxes.
pub open spec fn first_boxes(colors: Seq<usize>, n: int) -> Seq<ColorBox> {
    Seq::new(256, |k: int| ColorBox {
        min: seq![0u8, 0u8, 0u8],
        width: seq![255u8, 255u8, 255u8],
        entries: if k == 0 { colors } else { Seq::empty() },
        count: if k == 0 { n } else { 0 },
    })
}

/// The colors of each of the first `k` boxes.
pub open spec fn box_parts(bs: Seq<ColorBox>, k: int) -> Seq<Seq<usize>> {
    Seq::new(k as nat, |j: int| bs[j].entries)
}

/// The number of 15-bit colors that occur among the first `num_pixels`
/// pixels: a color map size above 256 can be asked of `gif_quantize_buffer`
/// only when there are at most 256 of them.
pub fn distinct_colors(num_pixels: usize, red_input: &[u8], green_input: &[u8], blue_input: &[u8]) -> (r: usize)
    requires
        num_pixels <= red_input@.len(),
        num_pixels <= green_input@.len(),
        num_pixels <= blue_input@.len(),
        num_pixels <= i64::MAX,
    ensures
        r == occurring(red_input@, green_input@, blue_input@, num_pixels as int, COLOR_ARRAY_SIZE as int).len(),
{
    let color_array = count_colors(num_pixels, red_input, green_input, blue_input);
    let non_empty = nonzero_colors(&color_array);
    proof {
        lemma_nonzero_is_occurring(color_array@, red_input@, green_input@, blue_input@, num_pixels as int,
            COLOR_ARRAY_SIZE as int);
    }
    non_empty.len()
}

/// Reduce an RGB image of `width * height` pixels to at most
/// `*color_map_size` colors (at least one) by median cut (`subdivide`):
/// `output_buffer` gets each pixel's color map index, `output_color_map` the
/// average colors of the boxes, and `*color_map_size` how many there are
/// (see `quantized_by`). When fewer colors result than were allowed, each
/// 15-bit color that occurs has an entry of its own; entries left over up to
/// `*color_map_size` become black. With no pixels nothing is written and the
/// size becomes 0. The size is taken as a `usize`; more than 256 boxes, or
/// more than the color map holds, cannot be made.
pub fn gif_quantize_buffer(
    width: u32,
    height: u32,
    color_map_size: &mut i32,
    red_input: &[u8],
    green_input: &[u8],
    blue_input: &[u8],
    output_buffer: &mut [u8],
    output_color_map: &mut [GifColorType],
) -> (r: bool)
    requires
        width * height <= red_input@.len(),
        width * height <= green_input@.len(),
        width * height <= blue_input@.len(),
        width * height <= old(output_buffer)@.len(),
        width * height <= i64::MAX,
        *old(color_map_size) as usize <= 256
            || occurring(red_input@, green_input@, blue_input@, width * height, COLOR_ARRAY_SIZE as int).len() <= 256,
        width * height > 0 ==> subdivide(
            color_table(red_input@, green_input@, blue_input@, width * height),
            first_boxes(occurring(red_input@, green_input@, blue_input@, width * height, COLOR_ARRAY_SIZE as int), width * height),
            1,
            *old(color_map_size) as usize as int,
        ).1 <= old(output_color_map)@.len(),
    ensures
        r,
        final(output_buffer)@.len() == old(output_buffer)@.len(),
        final(output_color_map)@.len() == old(output_color_map)@.len(),
        width * height == 0 ==> *final(color_map_size) == 0 && final(output_buffer)@ == old(output_buffer)@
            && final(output_color_map)@ == old(output_color_map)@,
        width * height > 0 ==> ({
            let n = width * height;
            let k = *final(color_map_size) as int;
            let cms = *old(color_map_size) as usize as int;
            let (bs, kk) = subdivide(color_table(red_input@, green_input@, blue_input@, n),
                first_boxes(occurring(red_input@, green_input@, blue_input@, n, COLOR_ARRAY_SIZE as int), n), 1, cms);
            let parts = box_parts(bs, k);
            &&& k == kk
            &&& 1 <= k
            &&& cms >= 1 ==> k <= cms
            &&& cms == 0 ==> k == 1
            &&& quantized_by(parts, red_input@, green_input@, blue_input@, n, final(output_buffer)@, final(output_color_map)@)
            &&& k < cms ==> forall|j: int| 0 <= j < k ==> (#[trigger] parts[j]).len() == 1
            &&& forall|p: int| n <= p < old(output_buffer)@.len() ==> final(output_buffer)@[p] == old(output_buffer)@[p]
            &&& forall|j: int| k <= j < cms && j < old(output_color_map)@.len() ==> #[trigger] final(output_color_map)@[j]
                == crate::colormap::black()
            &&& forall|j: int| k <= j < old(output_color_map)@.len() && j >= cms ==> #[trigger] final(output_color_map)@[j]
                == old(output_color_map)@[j]
        }),
{
    let ghost n = width * height;
    let ghost red = red_input@;
    let ghost green = green_input@;
    let ghost blue = blue_input@;
    let rlen = red_input.len();
    assert((width as usize) * (height as usize) <= rlen);
    let num_pixels = (width as usize) * (height as usize);
    let mut color_array = count_colors(num_pixels, red_input, green_input, blue_input);
    let non_empty = nonzero_colors(&color_array);
    let ghost ca1 = color_array@;
    proof {
        lemma_nonzero_props(ca1, COLOR_ARRAY_SIZE as int);
        lemma_nonzero_is_occurring(ca1, red, green, blue, n, COLOR_ARRAY_SIZE as int);
        lemma_nonzero_sum(ca1, COLOR_ARRAY_SIZE as int);
        assert forall|c: int| 0 <= c < COLOR_ARRAY_SIZE implies (#[trigger] ca1[c]).count >= 0 by {}
        lemma_zero_sum_zero(ca1, COLOR_ARRAY_SIZE as int);
        lemma_table_colors_ok(ca1);
        lemma_occurring_len(red, green, blue, n, COLOR_ARRAY_SIZE as int);
    }
    if non_empty.len() == 0 {
        proof {
            if n > 0 {
                lemma_color15_bits(red[0], green[0], blue[0]);
                let c0 = pixel_color(red, green, blue, 0);
                assert(color_occurs(red, green, blue, n, c0));
                assert(ca1[c0].count > 0);
                assert(non_empty@.contains(c0 as usize));
            }
        }
        *color_map_size = 0;
        return true;
    }
    let mut subdivs: Vec<ColorSubdiv> = Vec::new();
    let mut s: usize = 0;
    while s < 256
        invariant
            s <= 256,
            subdivs@.len() == s,
            forall|j: int| 0 <= j < s ==> #[trigger] box_view(subdivs@[j]) == (ColorBox {
                min: seq![0u8, 0u8, 0u8],
                width: seq![255u8, 255u8, 255u8],
                entries: Seq::empty(),
                count: 0,
            }),
        decreases 256 - s,
    {
        let b = ColorSubdiv {
            rgb_min: [0, 0, 0],
            rgb_width: [255, 255, 255],
            num_entries: 0,
            count: 0,
            color_indices: Vec::new(),
        };
        assert(b.rgb_min@ =~= seq![0u8, 0u8, 0u8]);
        assert(b.rgb_width@ =~= seq![255u8, 255u8, 255u8]);
        assert(b.color_indices@ =~= Seq::<usize>::empty());
        subdivs.push(b);
        s = s + 1;
    }
    let total = non_empty.len();
    let ghost ne = non_empty@;
    let first = ColorSubdiv {
        rgb_min: [0, 0, 0],
        rgb_width: [255, 255, 255],
        num_entries: total,
        count: (width as i64) * (height as i64),
        color_indices: non_empty,
    };
    proof {
        assert forall|k: int| 0 <= k < ne.len() implies in_box(first, ca1[#[trigger] ne[k] as int]) by {
            let x = ne[k] as int;
            assert(ca1[x].rgb@[0] == prim(x, 0));
        }
        assert(subdiv_ok(ca1, first));
    }
    let ghost s1 = subdivs@;
    subdivs.set(0, first);
    let mut new_color_map_size: usize = 1;
    proof {
        assert(boxes_view(subdivs@) =~= first_boxes(ne, n as int)) by {
            assert forall|j: int| 0 <= j < 256 implies #[trigger] boxes_view(subdivs@)[j] == first_boxes(ne, n as int)[j] by {
                if j == 0 {
                    assert(first.rgb_min@ =~= seq![0u8, 0u8, 0u8]);
                    assert(first.rgb_width@ =~= seq![255u8, 255u8, 255u8]);
                } else {
                    assert(box_view(s1[j]) == box_view(subdivs@[j]));
                }
            }
        }
        assert(subdivs_ok(ca1, subdivs@, 1));
        assert(entries_ms(subdivs@, 0) == Multiset::<usize>::empty());
        assert(entries_ms(subdivs@, 1) =~= ne.to_multiset());
    }
    let cms = *color_map_size as usize;
    if !subdiv_color_map(&mut subdivs, cms, &mut new_color_map_size, color_array.as_mut_slice()) {
        return false;
    }
    let k = new_color_map_size;
    let ghost subs2 = subdivs@;
    let ghost parts = Seq::new(k as nat, |j: int| subs2[j].color_indices@);
    proof {
        assert(parts =~= box_parts(boxes_view(subs2), k as int));
    }
    proof {
        lemma_parts_ms(subs2, parts, k as int);
        ne.to_multiset_ensures();
    }
    let ghost map0 = output_color_map@;
    if k < cms {
        let lim = if cms < output_color_map.len() { cms } else { output_color_map.len() };
        let mut j: usize = k;
        while j < lim
            invariant
                k <= j <= lim,
                lim <= cms,
                lim <= output_color_map@.len(),
                output_color_map@.len() == map0.len(),
                forall|q: int| k <= q < j ==> #[trigger] output_color_map@[q] == crate::colormap::black(),
                forall|q: int| 0 <= q < output_color_map@.len() && !(k <= q < j) ==> #[trigger] output_color_map@[q] == map0[q],
            decreases lim - j,
        {
            output_color_map[j] = GifColorType { Red: 0, Green: 0, Blue: 0 };
            j = j + 1;
        }
    }
    let ghost map1 = output_color_map@;
    assert(forall|q: int| 0 <= q < map0.len() && q >= cms && q >= k ==> #[trigger] map1[q] == map0[q]);
    assign_boxes(&subdivs, k, &mut color_array, output_color_map, Ghost(ca1));
    map_pixels(num_pixels, red_input, green_input, blue_input, &color_array, output_buffer, Ghost(subs2), Ghost(k as int));
    *color_map_size = k as i32;
    proof {
        assert(parts.len() == k);
        assert(ne == occurring(red, green, blue, n, COLOR_ARRAY_SIZE as int));
        assert(entries_ms(subs2, k as int) == ne.to_multiset());
        assert(parts_ms(parts, parts.len() as int) == occurring(red, green, blue, n, COLOR_ARRAY_SIZE as int).to_multiset());
        assert forall|p: int| 0 <= p < n implies (#[trigger] output_buffer@[p]) < parts.len() && parts[output_buffer@[p] as int].contains(
            pixel_color(red, green, blue, p) as usize) by {}
        assert forall|j: int| 0 <= j < parts.len() implies (#[trigger] parts[j]).len() >= 1 by {
            assert(subdiv_ok(ca1, subs2[j]));
        }
        assert forall|j: int| 0 <= j < parts.len() implies #[trigger] output_color_map@[j] == avg_color(parts[j]) by {}
        assert(quantized_by(parts, red, green, blue, n, output_buffer@, output_color_map@));
        if k < cms {
            assert forall|j: int| 0 <= j < k implies (#[trigger] parts[j]).len() == 1 by {
                assert(subdiv_ok(ca1, subs2[j]));
            }
        }
        let cmsi = *old(color_map_size) as usize as int;
        assert(cms as int == cmsi);
        assert(1 <= k);
        assert(cmsi >= 1 ==> k <= cmsi);
        assert(cmsi == 0 ==> k == 1);
        assert(k < cmsi ==> forall|j: int| 0 <= j < k ==> (#[trigger] parts[j]).len() == 1);
        assert(ca1 == color_table(red, green, blue, n));
        assert(forall|j: int| k <= j < cmsi && j < old(output_color_map)@.len() ==> #[trigger] output_color_map@[j]
            == crate::colormap::black());
        assert(forall|j: int| k <= j < old(output_color_map)@.len() && j >= cmsi ==> #[trigger] output_color_map@[j]
            == old(output_color_map)@[j]);
    }
    true
}

proof fn lemma_zero_totals(ca: Seq<QuantizedColor>, m: int)
    requires
        0 <= m <= ca.len(),
        forall|c: int| 0 <= c < m ==> (#[trigger] ca[c]).count == 0,
    ensures
        total_count(ca, m) == 0,
    decreases m,
{
    if m > 0 {
        lemma_zero_totals(ca, m - 1);
    }
}

} // verus!

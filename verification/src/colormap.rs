//! Color maps: creation from a color count or a slice, the bit size of a
//! color count, and the union of two maps with a translation table.
use vstd::prelude::*;

verus! {

/// One palette entry.
#[derive(Debug, Clone, Copy, PartialEq, Eq, Structural)]
pub struct GifColorType {
    pub Red: u8,
    pub Green: u8,
    pub Blue: u8,
}

/// A palette of `ColorCount` colors, `ColorCount` a power of two from 1 to 512.
#[derive(Debug)]
pub struct ColorMapObject {
    pub ColorCount: i32,
    pub BitsPerPixel: i32,
    pub SortFlag: bool,
    pub Colors: Vec<GifColorType>,
}

/// Error returned when a color count is not an accepted power of two.
#[derive(Debug)]
pub struct InvalidColorCount;

/// The smallest `i` in `1..=8` with `2^i >= n`, and 9 where there is none.
pub open spec fn spec_bit_size(n: int) -> int {
    if n <= 2 { 1 }
    else if n <= 4 { 2 }
    else if n <= 8 { 3 }
    else if n <= 16 { 4 }
    else if n <= 32 { 5 }
    else if n <= 64 { 6 }
    else if n <= 128 { 7 }
    else if n <= 256 { 8 }
    else { 9 }
}

/// `2^b` for the bit sizes in use.
pub open spec fn pow2_small(b: int) -> int
    decreases b,
{
    if b <= 0 { 1 } else { 2 * pow2_small(b - 1) }
}

/// A color count that a map may have: a power of two from 1 to 512.
pub open spec fn valid_color_count(n: int) -> bool {
    n == 1 || n == 2 || n == 4 || n == 8 || n == 16 || n == 32 || n == 64 || n == 128 || n == 256 || n == 512
}

/// The bit size of a map of `n` colors, `n` a power of two: the `b` with
/// `2^b == n`.
pub open spec fn map_bits(n: int) -> int {
    if n == 1 { 0 } else { spec_bit_size(n) }
}

pub open spec fn black() -> GifColorType {
    GifColorType { Red: 0, Green: 0, Blue: 0 }
}

impl ColorMapObject {
    /// The map holds `ColorCount` colors, a valid count, with the matching bit size.
    pub open spec fn wf(&self) -> bool {
        &&& valid_color_count(self.ColorCount as int)
        &&& self.Colors@.len() == self.ColorCount
        &&& self.BitsPerPixel == map_bits(self.ColorCount as int)
    }

    /// The colors of the map.
    pub fn colors(&self) -> (r: &[GifColorType])
        ensures
            r@ == self.Colors@,
    {
        self.Colors.as_slice()
    }

    /// The colors of the map, to change in place.
    pub fn colors_mut(&mut self) -> (r: &mut [GifColorType])
        ensures
            r@ == old(self).Colors@,
            final(self).Colors@ == final(r)@,
            final(self).ColorCount == old(self).ColorCount,
            final(self).BitsPerPixel == old(self).BitsPerPixel,
            final(self).SortFlag == old(self).SortFlag,
    {
        self.Colors.as_mut_slice()
    }

    /// A copy of the map.
    pub fn duplicate(&self) -> (r: ColorMapObject)
        ensures
            r.ColorCount == self.ColorCount,
            r.BitsPerPixel == self.BitsPerPixel,
            r.SortFlag == self.SortFlag,
            r.Colors@ == self.Colors@,
    {
        let colors = self.Colors.clone();
        assert(colors@ =~= self.Colors@);
        ColorMapObject {
            ColorCount: self.ColorCount,
            BitsPerPixel: self.BitsPerPixel,
            SortFlag: self.SortFlag,
            Colors: colors,
        }
    }

    /// Return the smallest bit field size that `n` fits in: the least `i` in
    /// `1..=8` with `2^i >= n`, or 9 when `n > 256`.
    pub fn bit_size(n: i32) -> (r: i32)
        ensures
            r == spec_bit_size(n as int),
    {
        if n <= 2 { 1 }
        else if n <= 4 { 2 }
        else if n <= 8 { 3 }
        else if n <= 16 { 4 }
        else if n <= 32 { 5 }
        else if n <= 64 { 6 }
        else if n <= 128 { 7 }
        else if n <= 256 { 8 }
        else { 9 }
    }

    /// A zeroed color map of `color_count` colors; the count must be a power
    /// of two from 1 to 256.
    pub fn new(color_count: i32) -> (r: Result<ColorMapObject, InvalidColorCount>)
        ensures
            r is Ok <==> (valid_color_count(color_count as int) && color_count <= 256),
            r matches Ok(m) ==> {
                &&& m.wf()
                &&& pow2_small(m.BitsPerPixel as int) == color_count
                &&& m.ColorCount == color_count
                &&& !m.SortFlag
                &&& m.Colors@ == Seq::new(color_count as nat, |i: int| black())
            },
    {
        if color_count < 0 || color_count > 256 {
            return Err(InvalidColorCount);
        }
        let mut zeros: Vec<GifColorType> = Vec::new();
        let mut i: i32 = 0;
        while i < color_count
            invariant
                0 <= i <= color_count <= 256,
                zeros@ == Seq::new(i as nat, |k: int| black()),
            decreases color_count - i,
        {
            zeros.push(GifColorType { Red: 0, Green: 0, Blue: 0 });
            i = i + 1;
            assert(zeros@ =~= Seq::new(i as nat, |k: int| black()));
        }
        Self::from_slice(zeros.as_slice())
    }

    /// A color map holding a copy of `src`, whose length must be a power of
    /// two from 1 to 512.
    pub fn from_slice(src: &[GifColorType]) -> (r: Result<ColorMapObject, InvalidColorCount>)
        requires
            src@.len() <= i32::MAX,
        ensures
            r is Ok <==> valid_color_count(src@.len() as int),
            r matches Ok(m) ==> {
                &&& m.wf()
                &&& pow2_small(m.BitsPerPixel as int) == src@.len()
                &&& m.ColorCount == src@.len()
                &&& !m.SortFlag
                &&& m.Colors@ == src@
            },
    {
        let color_count = src.len() as i32;
        proof {
            lemma_pow2_small_values();
        }
        if color_count == 1 {
            let colors = slice_to_vec(src);
            return Ok(ColorMapObject { ColorCount: 1, BitsPerPixel: 0, SortFlag: false, Colors: colors });
        }
        let bits = Self::bit_size(color_count);
        if color_count <= 0 || color_count != pow2_of(bits) {
            return Err(InvalidColorCount);
        }
        let colors = slice_to_vec(src);
        Ok(ColorMapObject { ColorCount: color_count, BitsPerPixel: bits, SortFlag: false, Colors: colors })
    }
}

proof fn lemma_pow2_small_values()
    ensures
        pow2_small(0) == 1,
        pow2_small(1) == 2,
        pow2_small(2) == 4,
        pow2_small(3) == 8,
        pow2_small(4) == 16,
        pow2_small(5) == 32,
        pow2_small(6) == 64,
        pow2_small(7) == 128,
        pow2_small(8) == 256,
        pow2_small(9) == 512,
{
    reveal_with_fuel(pow2_small, 10);
}

/// Whether a color is black.
pub open spec fn is_black(c: GifColorType) -> bool {
    c.Red == 0 && c.Green == 0 && c.Blue == 0
}

/// One past the last color of `s` that is not black, 0 when all are black.
pub open spec fn nonblack_end(s: Seq<GifColorType>) -> int
    decreases s.len(),
{
    if s.len() == 0 {
        0
    } else if !is_black(s.last()) {
        s.len() as int
    } else {
        nonblack_end(s.drop_last())
    }
}

/// The colors of `c2` that `c1` does not hold, in order, repeats included.
pub open spec fn novel_colors(c1: Seq<GifColorType>, c2: Seq<GifColorType>) -> Seq<GifColorType>
    decreases c2.len(),
{
    if c2.len() == 0 {
        Seq::empty()
    } else if c1.contains(c2.last()) {
        novel_colors(c1, c2.drop_last())
    } else {
        novel_colors(c1, c2.drop_last()).push(c2.last())
    }
}

/// The first index at which `s` holds `c` (meaningful when it holds `c`).
pub open spec fn first_index_of(s: Seq<GifColorType>, c: GifColorType) -> int {
    choose|j: int| 0 <= j < s.len() && s[j] == c && forall|k: int| 0 <= k < j ==> s[k] != c
}

/// Where the union places the color `c2[i]`: its first index in `c1` when `c1`
/// holds it, else the next free slot after the colors of `c1` that are kept.
pub open spec fn union_translation(c1: Seq<GifColorType>, c2: Seq<GifColorType>, i: int) -> int {
    if c1.contains(c2[i]) {
        first_index_of(c1, c2[i])
    } else {
        nonblack_end(c1) + novel_colors(c1, c2.take(i)).len()
    }
}

/// The number of slots the union fills.
pub open spec fn union_used(c1: Seq<GifColorType>, c2: Seq<GifColorType>) -> int {
    nonblack_end(c1) + novel_colors(c1, c2).len()
}

/// The colors of the union: `c1` up to its last color that is not black, then
/// the colors of `c2` missing from `c1`, then black up to a power of two.
pub open spec fn union_colors(c1: Seq<GifColorType>, c2: Seq<GifColorType>) -> Seq<GifColorType> {
    let start = nonblack_end(c1);
    let nv = novel_colors(c1, c2);
    let used = start + nv.len();
    Seq::new(
        pow2_small(spec_bit_size(used)) as nat,
        |p: int|
            if p < start {
                c1[p]
            } else if p < used {
                nv[p - start]
            } else {
                black()
            },
    )
}

proof fn lemma_novel_len(c1: Seq<GifColorType>, c2: Seq<GifColorType>)
    ensures
        novel_colors(c1, c2).len() <= c2.len(),
    decreases c2.len(),
{
    if c2.len() > 0 {
        lemma_novel_len(c1, c2.drop_last());
    }
}

proof fn lemma_nonblack_end_bounds(s: Seq<GifColorType>)
    ensures
        0 <= nonblack_end(s) <= s.len(),
        forall|p: int| nonblack_end(s) <= p < s.len() ==> is_black(#[trigger] s[p]),
    decreases s.len(),
{
    if s.len() > 0 && is_black(s.last()) {
        lemma_nonblack_end_bounds(s.drop_last());
        assert forall|p: int| nonblack_end(s) <= p < s.len() implies is_black(#[trigger] s[p]) by {
            if p < s.len() - 1 {
                assert(s[p] == s.drop_last()[p]);
            }
        }
    }
}

fn color_is_black(c: GifColorType) -> (r: bool)
    ensures
        r == is_black(c),
{
    c.Red == 0 && c.Green == 0 && c.Blue == 0
}

/// Overwrites the start of `dst` with `src`.
fn copy_prefix(dst: &mut Vec<GifColorType>, src: &[GifColorType])
    requires
        src@.len() <= old(dst)@.len(),
    ensures
        final(dst)@ == src@ + old(dst)@.skip(src@.len() as int),
{
    let mut p: usize = 0;
    while p < src.len()
        invariant
            p <= src@.len() <= dst@.len(),
            dst@.len() == old(dst)@.len(),
            forall|q: int| 0 <= q < p ==> dst@[q] == src@[q],
            forall|q: int| p <= q < dst@.len() ==> dst@[q] == old(dst)@[q],
        decreases src@.len() - p,
    {
        dst.set(p, src[p]);
        p = p + 1;
    }
    assert(dst@ =~= src@ + old(dst)@.skip(src@.len() as int));
}

/// One past the last color of `s` that is not black.
fn nonblack_len(s: &[GifColorType]) -> (r: usize)
    ensures
        r == nonblack_end(s@),
{
    let mut start: usize = s.len();
    assert(s@.take(start as int) =~= s@);
    while start > 0 && color_is_black(s[start - 1])
        invariant
            start <= s@.len(),
            nonblack_end(s@) == nonblack_end(s@.take(start as int)),
        decreases start,
    {
        assert(s@.take(start as int).drop_last() =~= s@.take(start - 1));
        start = start - 1;
    }
    if start > 0 {
        assert(s@.take(start as int).last() == s@[start - 1]);
    }
    start
}

/// Appends at `start` the colors of `c2` that `c1` does not hold, recording in
/// `trans` where each color of `c2` ended up; returns the next free slot.
fn merge_novel(
    cu: &mut Vec<GifColorType>,
    c1: &[GifColorType],
    c2: &[GifColorType],
    start: usize,
    max_count: usize,
    trans: &mut [u8],
) -> (crnt_slot: usize)
    requires
        c1@.len() <= max_count / 2,
        c2@.len() <= max_count / 2,
        max_count <= 256,
        start == nonblack_end(c1@),
        start <= c1@.len(),
        old(cu)@.len() == max_count,
        forall|q: int| 0 <= q < start ==> old(cu)@[q] == c1@[q],
        forall|q: int| start <= q < max_count ==> old(cu)@[q] == black(),
        old(trans)@.len() >= c2@.len(),
    ensures
        crnt_slot == start + novel_colors(c1@, c2@).len(),
        crnt_slot <= max_count,
        final(cu)@.len() == max_count,
        forall|q: int| 0 <= q < start ==> final(cu)@[q] == c1@[q],
        forall|q: int| start <= q < crnt_slot ==> final(cu)@[q] == novel_colors(c1@, c2@)[q - start],
        forall|q: int| crnt_slot <= q < max_count ==> final(cu)@[q] == black(),
        final(trans)@.len() == old(trans)@.len(),
        forall|q: int| 0 <= q < c2@.len() ==> final(trans)@[q] as int == union_translation(c1@, c2@, q),
        forall|q: int| c2@.len() <= q < old(trans)@.len() ==> final(trans)@[q] == old(trans)@[q],
{
    let ghost s1 = c1@;
    let ghost s2 = c2@;
    let c2_len = c2.len();
    let mut crnt_slot: usize = start;
    let mut i: usize = 0;
    assert(s2.take(0) =~= Seq::<GifColorType>::empty());
    while i < c2_len
        invariant
            c1@ == s1,
            c2@ == s2,
            c2_len == s2.len(),
            s1.len() <= max_count / 2,
            s2.len() <= max_count / 2,
            max_count <= 256,
            start == nonblack_end(s1),
            start <= s1.len(),
            i <= c2_len,
            cu@.len() == max_count,
            crnt_slot == start + novel_colors(s1, s2.take(i as int)).len(),
            novel_colors(s1, s2.take(i as int)).len() <= i,
            forall|q: int| 0 <= q < start ==> cu@[q] == s1[q],
            forall|q: int| start <= q < crnt_slot ==> cu@[q] == novel_colors(s1, s2.take(i as int))[q - start],
            forall|q: int| crnt_slot <= q < max_count ==> cu@[q] == black(),
            trans@.len() == old(trans)@.len(),
            forall|q: int| 0 <= q < i ==> trans@[q] as int == union_translation(s1, s2, q),
            forall|q: int| i <= q < trans@.len() ==> trans@[q] == old(trans)@[q],
            old(trans)@.len() >= s2.len(),
        ensures
            i == c2_len,
        decreases c2_len - i,
    {
        if crnt_slot >= max_count {
            break;
        }
        let c2_color = c2[i];
        let ghost before = novel_colors(s1, s2.take(i as int));
        assert(s2.take(i + 1).drop_last() =~= s2.take(i as int));
        assert(s2.take(i + 1).last() == s2[i as int]);
        match find_color(c1, c2_color) {
            Some(j) => {
                trans[i] = j as u8;
            }
            None => {
                cu.set(crnt_slot, c2_color);
                trans[i] = crnt_slot as u8;
                crnt_slot = crnt_slot + 1;
            }
        }
        proof {
            lemma_novel_len(s1, s2.take(i as int));
        }
        i = i + 1;
    }
    assert(s2.take(c2_len as int) =~= s2);
    crnt_slot
}

/// The first index of `c` in `s`.
fn find_color(s: &[GifColorType], c: GifColorType) -> (r: Option<usize>)
    ensures
        match r {
            Some(j) => j < s@.len() && s@[j as int] == c && first_index_of(s@, c) == j
                && s@.contains(c),
            None => !s@.contains(c),
        },
{
    let mut j: usize = 0;
    while j < s.len()
        invariant
            j <= s@.len(),
            forall|k: int| 0 <= k < j ==> s@[k] != c,
        decreases s@.len() - j,
    {
        let x = s[j];
        if x.Red == c.Red && x.Green == c.Green && x.Blue == c.Blue {
            proof {
                let ghost w = first_index_of(s@, c);
                assert(s@[j as int] == c);
                assert(0 <= w < s@.len() && s@[w] == c && forall|k: int| 0 <= k < w ==> s@[k] != c);
                if w < j {
                    assert(s@[w] != c);
                } else if j < w {
                    assert(s@[j as int] != c);
                }
            }
            return Some(j);
        }
        j = j + 1;
    }
    None
}

impl ColorMapObject {
    /// The union of this map (`c1`) and `other` (`c2`). The result keeps the
    /// colors of `c1` up to its last color that is not black, appends each
    /// color of `c2` that `c1` does not hold, and pads with black up to a
    /// power of two. `trans[i]` is set to where the color `c2[i]` ended up.
    /// There is no union when twice the larger color count exceeds 256.
    #[verifier::loop_isolation(false)]
    pub fn union_with(&self, other: &ColorMapObject, trans: &mut [u8]) -> (r: Option<ColorMapObject>)
        requires
            self.wf(),
            other.wf(),
            old(trans)@.len() >= other.ColorCount,
        ensures
            r is Some <==> 2 * (if self.ColorCount > other.ColorCount { self.ColorCount } else {
                other.ColorCount }) <= 256,
            final(trans)@.len() == old(trans)@.len(),
            r matches Some(u) ==> {
                &&& u.wf()
                &&& !u.SortFlag
                &&& u.Colors@ == union_colors(self.Colors@, other.Colors@)
                &&& u.ColorCount == pow2_small(spec_bit_size(union_used(self.Colors@, other.Colors@)))
                &&& forall|i: int| 0 <= i < other.ColorCount ==> final(trans)@[i] as int
                    == union_translation(self.Colors@, other.Colors@, i)
                &&& forall|i: int| other.ColorCount <= i < old(trans)@.len() ==> final(trans)@[i]
                    == old(trans)@[i]
            },
            r is None ==> final(trans)@ == old(trans)@,
    {
        let c1 = self.colors();
        let c2 = other.colors();
        let ghost s1 = c1@;
        let ghost s2 = c2@;
        let larger = if self.ColorCount > other.ColorCount { self.ColorCount } else { other.ColorCount };
        let max_count = match larger.checked_mul(2) {
            Some(m) => m,
            None => return None,
        };
        let color_union = match ColorMapObject::new(max_count) {
            Ok(m) => m,
            Err(_) => return None,
        };
        let mut cu = color_union.Colors;
        let c1_len = c1.len();
        let c2_len = c2.len();
        copy_prefix(&mut cu, c1);
        let start = nonblack_len(c1);
        proof {
            lemma_nonblack_end_bounds(s1);
            assert forall|q: int| start <= q < c1_len implies cu@[q] == black() by {
                assert(is_black(s1[q]));
            }
        }
        let crnt_slot = merge_novel(&mut cu, c1, c2, start, max_count as usize, trans);
        if crnt_slot > max_count as usize {
            return None;
        }
        let new_bit_size = Self::bit_size(crnt_slot as i32);
        let round_up_to = pow2_of(new_bit_size);
        proof {
            lemma_pow2_small_values();
        }
        if round_up_to > max_count {
            return None;
        }
        let mut q: usize = crnt_slot;
        let ghost before_fill = cu@;
        while q < round_up_to as usize
            invariant
                crnt_slot <= q <= round_up_to <= max_count,
                cu@.len() == max_count,
                forall|k: int| crnt_slot <= k < max_count ==> cu@[k] == black(),
                forall|k: int| 0 <= k < crnt_slot ==> cu@[k] == before_fill[k],
            decreases round_up_to - q,
        {
            cu.set(q, GifColorType { Red: 0, Green: 0, Blue: 0 });
            q = q + 1;
        }
        cu.truncate(round_up_to as usize);
        proof {
            let used = union_used(s1, s2);
            assert(used == crnt_slot);
            assert(round_up_to == pow2_small(spec_bit_size(used)));
            assert(cu@.len() == round_up_to);
            assert forall|p: int| 0 <= p < round_up_to implies #[trigger] cu@[p] == union_colors(s1, s2)[p] by {
                if p < start {
                    assert(cu@[p] == s1[p]);
                } else if p < crnt_slot {
                    assert(before_fill[p] == novel_colors(s1, s2)[p - start]);
                    assert(cu@[p] == novel_colors(s1, s2)[p - start]);
                } else {
                    assert(cu@[p] == black());
                }
            }
        }
        assert(cu@ =~= union_colors(s1, s2));
        Some(ColorMapObject {
            ColorCount: round_up_to,
            BitsPerPixel: new_bit_size,
            SortFlag: false,
            Colors: cu,
        })
    }
}

/// `2^b` for `b` in `0..=9`.
fn pow2_of(b: i32) -> (r: i32)
    requires
        0 <= b <= 9,
    ensures
        r == pow2_small(b as int),
{
    let mut r: i32 = 1;
    let mut i: i32 = 0;
    while i < b
        invariant
            0 <= i <= b <= 9,
            r == pow2_small(i as int),
            r <= 512,
        decreases b - i,
    {
        proof {
            reveal_with_fuel(pow2_small, 10);
        }
        r = r * 2;
        i = i + 1;
    }
    r
}

/// A vector holding a copy of the slice.
pub fn slice_to_vec<T: Copy>(s: &[T]) -> (r: Vec<T>)
    ensures
        r@ == s@,
{
    let mut v: Vec<T> = Vec::new();
    let mut i: usize = 0;
    while i < s.len()
        invariant
            i <= s@.len(),
            v@ == s@.take(i as int),
        decreases s@.len() - i,
    {
        v.push(s[i]);
        i = i + 1;
        assert(v@ =~= s@.take(i as int));
    }
    assert(s@.take(s@.len() as int) =~= s@);
    v
}

} // verus!

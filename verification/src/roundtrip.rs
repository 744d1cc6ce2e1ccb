//! What the decoder reads back of what the encoder writes: 16-bit words,
//! sub-block framing of extension and image data, and the screen and image
//! descriptors with their color tables.
use vstd::prelude::*;
use crate::colormap::{ColorMapObject, GifColorType, spec_bit_size, valid_color_count};
use crate::decoder::{color_bytes, image_desc_len, image_fields, le16, screen_desc_len, screen_desc_ok, screen_fields, table_colors};
use crate::decoder_lzw::{pow2_bits, sub_block_data};
use crate::encoder_lzw::{block_flush, block_put, block_put_all};
use crate::encoder::{
    block_bytes, color_table_bytes, comment_bytes, image_desc_bytes, image_packed, map_table_bytes, screen_desc_bytes, screen_packed,
    sub_blocks, word_bytes,
};
use crate::file::GifFileType;

verus! {

/// A 16-bit word written low byte first reads back as the same word.
pub proof fn lemma_word_round_trip(w: i32)
    requires
        0 <= w <= 65535,
    ensures
        le16(word_bytes(w)[0], word_bytes(w)[1]) == w,
{
    assert(((w & 0xff) as u8) as int + 256 * (((w >> 8u32) & 0xff) as u8) as int == w) by (bit_vector)
        requires 0 <= w <= 65535;
}

/// Data cut into sub-blocks and ended by an empty one reads back as the
/// same data, whatever follows.
pub proof fn lemma_sub_blocks_round_trip(data: Seq<u8>, rest: Seq<u8>)
    ensures
        sub_block_data(sub_blocks(data) + seq![0u8] + rest) == data,
    decreases data.len(),
{
    let input = sub_blocks(data) + seq![0u8] + rest;
    if data.len() == 0 {
        assert(input[0] == 0);
    } else if data.len() <= 255 {
        let n = data.len() as int;
        assert(input[0] == n as u8);
        assert(input.subrange(1, 1 + n) =~= data);
        assert(input.skip(1 + n) =~= seq![0u8] + rest);
        assert(sub_block_data(input.skip(1 + n)) =~= Seq::<u8>::empty());
        assert(data + Seq::<u8>::empty() =~= data);
    } else {
        let tail = data.skip(255);
        lemma_sub_blocks_round_trip(tail, rest);
        assert(input[0] == 255u8);
        assert(input.subrange(1, 256) =~= data.take(255));
        assert(input.skip(256) =~= sub_blocks(tail) + seq![0u8] + rest);
        assert(data.take(255) + tail =~= data);
    }
}

/// The data of a comment extension, read back past its introducer and
/// function code, is the comment, whatever its length.
pub proof fn lemma_comment_round_trip(c: Seq<u8>, rest: Seq<u8>)
    ensures
        comment_bytes(c).take(2) == seq![crate::constants::EXTENSION_INTRODUCER, crate::constants::COMMENT_EXT_FUNC_CODE as u8],
        sub_block_data(comment_bytes(c).skip(2) + rest) == c,
{
    let cb = comment_bytes(c);
    if c.len() == 0 {
        assert(cb.skip(2) + rest =~= sub_blocks(c) + seq![0u8] + (seq![0u8] + rest));
        lemma_sub_blocks_round_trip(c, seq![0u8] + rest);
    } else if c.len() <= 255 {
        assert(sub_blocks(c) == block_bytes(c));
        assert(cb.skip(2) + rest =~= sub_blocks(c) + seq![0u8] + rest);
        lemma_sub_blocks_round_trip(c, rest);
    } else {
        assert(cb.skip(2) + rest =~= sub_blocks(c) + seq![0u8] + rest);
        lemma_sub_blocks_round_trip(c, rest);
    }
    assert(cb.take(2) =~= seq![crate::constants::EXTENSION_INTRODUCER, crate::constants::COMMENT_EXT_FUNC_CODE as u8]);
}

proof fn lemma_sub_blocks_concat(a: Seq<u8>, b: Seq<u8>, q: int)
    requires
        q >= 1,
        a.len() == 255 * q,
    ensures
        sub_blocks(a + b) == sub_blocks(a) + sub_blocks(b),
    decreases q,
{
    let ab = a + b;
    if q == 1 {
        if b.len() == 0 {
            assert(ab =~= a);
            assert(sub_blocks(b) =~= Seq::<u8>::empty());
        } else {
            assert(ab.take(255) =~= a);
            assert(ab.skip(255) =~= b);
        }
    } else {
        let a1 = a.skip(255);
        lemma_sub_blocks_concat(a1, b, q - 1);
        assert(ab.take(255) =~= a.take(255));
        assert(ab.skip(255) =~= a1 + b);
    }
}

/// Where the sub-block buffer and output stand after data bytes `d` were
/// buffered from an empty sub-block: the full sub-blocks of `d` are out,
/// and the buffer holds the rest, one to 255 bytes.
spec fn put_state(buf0: Seq<u8>, out: Seq<u8>, d: Seq<u8>, b: Seq<u8>, o: Seq<u8>) -> bool {
    if d.len() == 0 {
        b == buf0 && o == out
    } else {
        let q = (d.len() - 1) / 255;
        let r = d.len() - 255 * q;
        &&& o == out + sub_blocks(d.take(255 * q))
        &&& b.len() == 256
        &&& b[0] == r
        &&& b.subrange(1, 1 + r) == d.skip(255 * q)
    }
}

proof fn lemma_block_put_all(buf0: Seq<u8>, out: Seq<u8>, d: Seq<u8>)
    requires
        buf0.len() == 256,
        buf0[0] == 0,
    ensures
        put_state(buf0, out, d, block_put_all(buf0, out, d).0, block_put_all(buf0, out, d).1),
    decreases d.len(),
{
    if d.len() > 0 {
        let d0 = d.drop_last();
        let x = d.last();
        lemma_block_put_all(buf0, out, d0);
        let (b0, o0) = block_put_all(buf0, out, d0);
        let (b, o) = block_put_all(buf0, out, d);
        assert((b, o) == block_put(b0, o0, x));
        if d0.len() == 0 {
            assert(d.take(0) =~= Seq::<u8>::empty());
            assert(sub_blocks(Seq::<u8>::empty()) =~= Seq::<u8>::empty());
            assert(b.subrange(1, 2) =~= d.skip(0));
            assert(o =~= out + sub_blocks(d.take(0)));
            assert(put_state(buf0, out, d, b, o));
        } else {
            let q0 = (d0.len() - 1) / 255;
            let r0 = d0.len() - 255 * q0;
            assert(1 <= r0 <= 255);
            if r0 < 255 {
                assert((d.len() - 1) / 255 == q0);
                assert(d.take(255 * q0) =~= d0.take(255 * q0));
                assert(b == b0.update(0, (r0 + 1) as u8).update(r0 + 1, x));
                assert(d.skip(255 * q0) =~= d0.skip(255 * q0).push(x));
                assert forall|i: int| 1 <= i < 1 + r0 implies b[i] == b0[i] by {}
                assert(b.subrange(1, 1 + r0 + 1) =~= b0.subrange(1, 1 + r0).push(x));
                assert(b.subrange(1, 1 + r0 + 1) =~= d.skip(255 * q0));
                assert(put_state(buf0, out, d, b, o));
            } else {
                let q = q0 + 1;
                assert((d.len() - 1) / 255 == q);
                let chunk = d0.skip(255 * q0);
                assert(b0 =~= seq![255u8] + chunk);
                assert(block_bytes(chunk) =~= b0);
                if q0 >= 1 {
                    lemma_sub_blocks_concat(d0.take(255 * q0), chunk, q0);
                } else {
                    assert(d0.take(0) =~= Seq::<u8>::empty());
                    assert(Seq::<u8>::empty() + chunk =~= chunk);
                }
                assert(d.take(255 * q) =~= d0.take(255 * q0) + chunk);
                assert(sub_blocks(chunk) == block_bytes(chunk));
                assert(b.subrange(1, 2) =~= d.skip(255 * q));
                assert(o == o0 + b0);
                assert(o =~= out + sub_blocks(d.take(255 * q)));
                assert(put_state(buf0, out, d, b, o));
            }
        }
    }
}

/// The data bytes the compressor sends on, buffered from an empty sub-block
/// and then flushed, are written as `sub_blocks` of the data and an empty
/// sub-block; so the decoder's sub-block reader gives the data back.
pub proof fn lemma_block_framing(buf0: Seq<u8>, out: Seq<u8>, d: Seq<u8>, rest: Seq<u8>)
    requires
        buf0.len() == 256,
        buf0[0] == 0,
    ensures
        ({
            let (b, o) = block_put_all(buf0, out, d);
            &&& block_flush(b, o).1 == out + sub_blocks(d) + seq![0u8]
            &&& sub_block_data(block_flush(b, o).1.skip(out.len() as int) + rest) == d
        }),
{
    lemma_block_put_all(buf0, out, d);
    let (b, o) = block_put_all(buf0, out, d);
    if d.len() == 0 {
        assert(sub_blocks(d) =~= Seq::<u8>::empty());
        assert(block_flush(b, o).1 =~= out + sub_blocks(d) + seq![0u8]);
    } else {
        let q = (d.len() - 1) / 255;
        let r = d.len() - 255 * q;
        let tail = d.skip(255 * q);
        assert(b.subrange(0, r + 1) =~= block_bytes(tail));
        assert(sub_blocks(tail) == block_bytes(tail));
        if q >= 1 {
            lemma_sub_blocks_concat(d.take(255 * q), tail, q);
        } else {
            assert(d.take(0) =~= Seq::<u8>::empty());
            assert(Seq::<u8>::empty() + tail =~= tail);
        }
        assert(d.take(255 * q) + tail =~= d);
        assert(block_flush(b, o).1 =~= out + sub_blocks(d) + seq![0u8]);
    }
    let f = block_flush(b, o).1;
    assert(f.skip(out.len() as int) + rest =~= sub_blocks(d) + seq![0u8] + rest);
    lemma_sub_blocks_round_trip(d, rest);
}

proof fn lemma_color_table_bytes(cs: Seq<GifColorType>)
    ensures
        color_table_bytes(cs).len() == 3 * cs.len(),
        forall|i: int| 0 <= i < cs.len() ==> {
            &&& color_table_bytes(cs)[3 * i] == (#[trigger] cs[i]).Red
            &&& color_table_bytes(cs)[3 * i + 1] == cs[i].Green
            &&& color_table_bytes(cs)[3 * i + 2] == cs[i].Blue
        },
    decreases cs.len(),
{
    if cs.len() > 0 {
        let d = cs.drop_last();
        lemma_color_table_bytes(d);
        assert forall|i: int| 0 <= i < cs.len() implies {
            &&& color_table_bytes(cs)[3 * i] == (#[trigger] cs[i]).Red
            &&& color_table_bytes(cs)[3 * i + 1] == cs[i].Green
            &&& color_table_bytes(cs)[3 * i + 2] == cs[i].Blue
        } by {
            if i < cs.len() - 1 {
                assert(cs[i] == d[i]);
            }
        }
    }
}

/// The colors of a map's table, read back from the bytes written for it.
proof fn lemma_table_round_trip(m: ColorMapObject, bytes: Seq<u8>, start: int)
    requires
        m.wf(),
        0 <= start,
        bytes.len() >= start + 3 * m.ColorCount,
        bytes.subrange(start, start + 3 * m.ColorCount) == map_table_bytes(Some(m)),
    ensures
        color_bytes(bytes.subrange(start, start + 3 * m.ColorCount), m.ColorCount as int) == m.Colors@,
{
    let cs = m.Colors@.take(m.ColorCount as int);
    assert(cs =~= m.Colors@);
    lemma_color_table_bytes(cs);
    assert(color_bytes(bytes.subrange(start, start + 3 * m.ColorCount), m.ColorCount as int) =~= m.Colors@);
}

proof fn lemma_bit_size_pow2(n: int)
    requires
        valid_color_count(n),
        2 <= n <= 256,
    ensures
        1 <= spec_bit_size(n) <= 8,
        pow2_bits(spec_bit_size(n)) == n,
{
    reveal_with_fuel(pow2_bits, 10);
}

/// A readable color map: one of the counts a table can have, from 2 to 256
/// (a table's size field cannot announce a single color).
pub open spec fn table_map(m: Option<ColorMapObject>) -> bool {
    m matches Some(c) ==> c.wf() && 2 <= c.ColorCount <= 256
}

/// Reading a logical screen descriptor back from the bytes written for it
/// gives the values written: the decoder finds a complete descriptor, and a
/// handle holding what it read has the same size, color resolution,
/// background color, aspect byte and global color map.
#[verifier::spinoff_prover]
#[verifier::rlimit(60)]
pub proof fn lemma_screen_desc_round_trip(
    width: i32,
    height: i32,
    color_res: i32,
    background: i32,
    aspect: u8,
    map: Option<ColorMapObject>,
    rest: Seq<u8>,
    g: GifFileType,
)
    requires
        0 <= width <= 65535,
        0 <= height <= 65535,
        1 <= color_res <= 8,
        table_map(map),
        map matches Some(m) ==> 0 <= background < m.ColorCount,
        map is None ==> 0 <= background <= 255,
        screen_fields(g, screen_desc_bytes(width, height, color_res, background, aspect, map) + rest),
    ensures
        screen_desc_ok(screen_desc_bytes(width, height, color_res, background, aspect, map) + rest),
        g.SWidth == width,
        g.SHeight == height,
        g.SColorResolution == color_res,
        g.SBackGroundColor == background,
        g.AspectByte == aspect,
        g.SColorMap is Some <==> map is Some,
        g.SColorMap matches Some(m) ==> {
            &&& m.ColorCount == map->0.ColorCount
            &&& m.BitsPerPixel == map->0.BitsPerPixel
            &&& m.SortFlag == map->0.SortFlag
            &&& m.Colors@ == map->0.Colors@
        },
{
    let bytes = screen_desc_bytes(width, height, color_res, background, aspect, map) + rest;
    let p = screen_packed(color_res, map);
    lemma_word_round_trip(width);
    lemma_word_round_trip(height);
    assert(bytes[0] == word_bytes(width)[0] && bytes[1] == word_bytes(width)[1]);
    assert(bytes[2] == word_bytes(height)[0] && bytes[3] == word_bytes(height)[1]);
    assert(bytes[4] == p && bytes[5] == background as u8 && bytes[6] == aspect);
    let cr = color_res;
    let res: u8 = ((((cr - 1) as i32) & 0x07i32) << 4u32) as u8;
    assert(res & 0x70 == res && res & 0x80 == 0 && res & 0x08 == 0 && res & 7 == 0
        && ((res as int + 1) / 16 + 1) == cr) by (bit_vector)
        requires 1 <= cr <= 8, res == ((((cr - 1) as i32) & 0x07i32) << 4u32) as u8;
    match map {
        Some(m) => {
            lemma_bit_size_pow2(m.ColorCount as int);
            let size: u8 = (m.BitsPerPixel - 1) as u8;
            let sort: u8 = if m.SortFlag { 0x08u8 } else { 0u8 };
            assert(size <= 7);
            assert(p == 0x80u8 | res | size | sort);
            assert(p & 0x80 != 0 && p & 0x70 == res && p & 7 == size && (p & 0x08 != 0) == (sort != 0)) by (bit_vector)
                requires p == 0x80u8 | res | size | sort, size <= 7, sort == 0 || sort == 8, res & 0x70 == res,
                    res & 0x80 == 0, res & 0x08 == 0, res & 7 == 0;
            let n = m.ColorCount as int;
            assert(table_colors(p) == n);
            assert(screen_desc_len(bytes) == 7 + 3 * n);
            let tbl = map_table_bytes(map);
            let cs = m.Colors@.take(n);
            lemma_color_table_bytes(cs);
            assert(bytes.subrange(7, 7 + 3 * n) =~= tbl);
            lemma_table_round_trip(m, bytes, 7);
            assert(background as u8 == background && (background as u8) < n);
        },
        None => {
            assert(p == 0u8 | res | 0x07u8 | 0u8);
            assert(p & 0x80 == 0 && p & 0x70 == res) by (bit_vector)
                requires p == 0u8 | res | 0x07u8 | 0u8, res & 0x70 == res, res & 0x80 == 0;
            assert(screen_desc_len(bytes) == 7);
        },
    }
}

/// Reading an image descriptor back from the bytes written for it gives the
/// values written: the decoder finds a complete descriptor, and one holding
/// what it read has the same position, size, interlacing and local color
/// table (the table's sort flag is not part of an image descriptor).
#[verifier::spinoff_prover]
#[verifier::rlimit(60)]
pub proof fn lemma_image_desc_round_trip(
    left: i32,
    top: i32,
    width: i32,
    height: i32,
    interlace: bool,
    map: Option<ColorMapObject>,
    rest: Seq<u8>,
    d: crate::types::GifImageDesc,
)
    requires
        0 <= left <= 65535,
        0 <= top <= 65535,
        0 <= width <= 65535,
        0 <= height <= 65535,
        table_map(map),
        image_fields(d, image_desc_bytes(left, top, width, height, interlace, map).skip(1) + rest),
    ensures
        image_desc_bytes(left, top, width, height, interlace, map)[0] == crate::constants::DESCRIPTOR_INTRODUCER,
        image_desc_len(image_desc_bytes(left, top, width, height, interlace, map).skip(1) + rest)
            == image_desc_bytes(left, top, width, height, interlace, map).len() - 1,
        d.Left == left,
        d.Top == top,
        d.Width == width,
        d.Height == height,
        d.Interlace == interlace,
        d.ColorMap is Some <==> map is Some,
        d.ColorMap matches Some(m) ==> {
            &&& m.ColorCount == map->0.ColorCount
            &&& m.BitsPerPixel == map->0.BitsPerPixel
            &&& m.Colors@ == map->0.Colors@
        },
{
    let all = image_desc_bytes(left, top, width, height, interlace, map);
    let bytes = all.skip(1) + rest;
    let p = image_packed(interlace, map);
    lemma_word_round_trip(left);
    lemma_word_round_trip(top);
    lemma_word_round_trip(width);
    lemma_word_round_trip(height);
    assert(bytes[0] == word_bytes(left)[0] && bytes[1] == word_bytes(left)[1]);
    assert(bytes[2] == word_bytes(top)[0] && bytes[3] == word_bytes(top)[1]);
    assert(bytes[4] == word_bytes(width)[0] && bytes[5] == word_bytes(width)[1]);
    assert(bytes[6] == word_bytes(height)[0] && bytes[7] == word_bytes(height)[1]);
    assert(bytes[8] == p);
    let il: u8 = if interlace { 0x40u8 } else { 0u8 };
    match map {
        Some(m) => {
            lemma_bit_size_pow2(m.ColorCount as int);
            let size: u8 = (m.BitsPerPixel - 1) as u8;
            assert(size <= 7);
            assert(p == 0x80u8 | il | size);
            assert(p & 0x80 != 0 && p & 7 == size && (p & 0x40 != 0) == (il != 0)) by (bit_vector)
                requires p == 0x80u8 | il | size, size <= 7, il == 0 || il == 0x40;
            let n = m.ColorCount as int;
            assert(table_colors(p) == n);
            let tbl = map_table_bytes(map);
            let cs = m.Colors@.take(n);
            lemma_color_table_bytes(cs);
            assert(all.len() == 10 + 3 * n);
            assert(bytes.subrange(9, 9 + 3 * n) =~= tbl);
            lemma_table_round_trip(m, bytes, 9);
        },
        None => {
            assert(p == 0u8 | il | 0u8);
            assert(p & 0x80 == 0 && (p & 0x40 != 0) == (il != 0)) by (bit_vector)
                requires p == 0u8 | il | 0u8, il == 0 || il == 0x40;
            assert(all.len() == 10);
        },
    }
}

} // verus!

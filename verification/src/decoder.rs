//! Decoding a GIF stream: the signature, the logical screen descriptor,
//! record types, image descriptors, extension and code sub-blocks, pixel
//! lines, and reading a whole stream into core.
use vstd::prelude::*;
use crate::colormap::{ColorMapObject, GifColorType};
use crate::constants::{
    CONTINUE_EXT_FUNC_CODE, DESCRIPTOR_INTRODUCER, DISPOSAL_UNSPECIFIED, EXTENSION_INTRODUCER,
    GRAPHICS_EXT_FUNC_CODE, LZ_MAX_CODE, NO_SUCH_CODE, NO_TRANSPARENT_COLOR, TERMINATOR_INTRODUCER,
};
use crate::decoder_lzw::{pow2_bits, pow2_i32, lemma_pow2_bits_bound, cursor_form, dec_line,
    dec_view, DecEnd, DecView, lemma_dec_line_split, lemma_dec_line_stop, sub_block_data, data_end_error};
use crate::encoder::pass_len;
use crate::err::GifError;
use crate::file::{GifFileType, GifFilePrivateType, IoState, LzwState, same_except_io, same_except_io_lzw, with_io};
use crate::gcb::{GraphicsControlBlock, dgif_extension_to_gcb, gcb_of_bytes};
use crate::types::{ExtensionBlock, GifRecordType, SavedImage};

verus! {

/// A little-endian 16-bit word.
pub open spec fn le16(b0: u8, b1: u8) -> i32 {
    (b0 as int + 256 * (b1 as int)) as i32
}

/// `n` colors from consecutive red, green, blue bytes.
pub open spec fn color_bytes(b: Seq<u8>, n: int) -> Seq<GifColorType> {
    Seq::new(n as nat, |i: int| GifColorType { Red: b[3 * i], Green: b[3 * i + 1], Blue: b[3 * i + 2] })
}

/// The number of colors of a color table whose size field is in `packed`.
pub open spec fn table_colors(packed: u8) -> int {
    pow2_bits((packed & 7) as int + 1)
}

/// The number of bytes of a color table announced in `packed` (none when
/// its top bit is clear).
pub open spec fn table_bytes(packed: u8) -> int {
    if packed & 0x80 != 0 { 3 * table_colors(packed) } else { 0 }
}

/// The length of the logical screen descriptor at the start of `inp`,
/// global color table included.
pub open spec fn screen_desc_len(inp: Seq<u8>) -> int {
    7 + table_bytes(inp[4])
}

/// `inp` starts with a complete logical screen descriptor.
pub open spec fn screen_desc_ok(inp: Seq<u8>) -> bool {
    inp.len() >= 7 && inp.len() >= screen_desc_len(inp)
}

/// The color resolution as the decoder computes it from the packed byte:
/// the resolution field (bits 4 to 6, in place) plus one, divided by 16,
/// plus one.
pub open spec fn color_resolution(packed: u8) -> i32 {
    (((packed & 0x70) as int + 1) / 16 + 1) as i32
}

/// `g` holds the fields of the logical screen descriptor at the start of `inp`.
pub open spec fn screen_fields(g: GifFileType, inp: Seq<u8>) -> bool {
    let p = inp[4];
    let n = table_colors(p);
    &&& g.SWidth == le16(inp[0], inp[1])
    &&& g.SHeight == le16(inp[2], inp[3])
    &&& g.SColorResolution == color_resolution(p)
    &&& g.SBackGroundColor == (if p & 0x80 != 0 && inp[5] >= n { (n - 1) as i32 } else { inp[5] as i32 })
    &&& g.AspectByte == inp[6]
    &&& (g.SColorMap is Some <==> p & 0x80 != 0)
    &&& g.SColorMap matches Some(m) ==> {
        &&& m.wf()
        &&& m.ColorCount == n
        &&& m.SortFlag == (p & 0x08 != 0)
        &&& m.Colors@ == color_bytes(inp.subrange(7, 7 + 3 * n), n)
    }
}

/// `g` holds the logical screen descriptor at the start of `inp`, with
/// every other field as in `g0`.
pub open spec fn screen_desc_read(g0: GifFileType, g: GifFileType, inp: Seq<u8>) -> bool {
    &&& screen_fields(g, inp)
    &&& g == with_io(GifFileType {
        SWidth: g.SWidth,
        SHeight: g.SHeight,
        SColorResolution: g.SColorResolution,
        SBackGroundColor: g.SBackGroundColor,
        AspectByte: g.AspectByte,
        SColorMap: g.SColorMap,
        ..g0
    }, g.Private.io)
}

pub proof fn lemma_table_colors(p: u8)
    ensures
        2 <= table_colors(p) <= 256,
        crate::colormap::valid_color_count(table_colors(p)),
        crate::colormap::spec_bit_size(table_colors(p)) == (p & 7) + 1,
{
    let b = (p & 7) as int + 1;
    assert((p & 7) <= 7) by (bit_vector);
    reveal_with_fuel(pow2_bits, 10);
}

/// Read a little-endian 16-bit word.
pub fn dgif_get_word(gif: &mut GifFileType) -> (r: Result<i32, GifError>)
    requires
        old(gif).wf(),
    ensures
        final(gif).wf(),
        same_except_io(*final(gif), *old(gif)),
        final(gif).readable() == old(gif).readable(),
        final(gif).output() == old(gif).output(),
        r is Ok <==> (old(gif).readable() && old(gif).input().len() >= 2),
        r matches Ok(w) ==> w == le16(old(gif).input()[0], old(gif).input()[1])
            && final(gif).input() == old(gif).input().skip(2),
        r is Err ==> r == Err::<i32, GifError>(GifError::DReadFailed) && final(gif).input().len() == 0,
{
    let mut c: [u8; 2] = [0u8, 0u8];
    match gif.read_exact(&mut c) {
        Ok(()) => Ok(c[0] as i32 + 256 * (c[1] as i32)),
        Err(e) => Err(e),
    }
}

/// Read `n` colors, three bytes each.
fn read_colors(gif: &mut GifFileType, map: &mut ColorMapObject) -> (r: Result<(), GifError>)
    requires
        old(gif).wf(),
        old(map).wf(),
    ensures
        final(gif).input().len() <= old(gif).input().len(),
        final(gif).wf(),
        same_except_io(*final(gif), *old(gif)),
        final(gif).readable() == old(gif).readable(),
        final(gif).output() == old(gif).output(),
        final(map).ColorCount == old(map).ColorCount,
        final(map).BitsPerPixel == old(map).BitsPerPixel,
        final(map).SortFlag == old(map).SortFlag,
        final(map).Colors@.len() == old(map).Colors@.len(),
        r is Ok <==> (old(gif).readable() && old(gif).input().len() >= 3 * old(map).ColorCount),
        r is Ok ==> final(map).Colors@ == color_bytes(old(gif).input().subrange(0, 3 * old(map).ColorCount), old(map).ColorCount as int)
            && final(gif).input() == old(gif).input().skip(3 * old(map).ColorCount),
        r is Err ==> r == Err::<(), GifError>(GifError::DReadFailed),
{
    let n = map.ColorCount as usize;
    let ghost inp = gif.input();
    let mut i: usize = 0;
    while i < n
        invariant
            gif.wf(),
            same_except_io(*gif, *old(gif)),
            gif.readable() == old(gif).readable(),
            gif.output() == old(gif).output(),
            inp == old(gif).input(),
            n == old(map).ColorCount,
            n <= 512,
            i <= n,
            map.ColorCount == old(map).ColorCount,
            map.BitsPerPixel == old(map).BitsPerPixel,
            map.SortFlag == old(map).SortFlag,
            map.Colors@.len() == n,
            old(map).Colors@.len() == n,
            inp.len() >= 3 * i,
            gif.input().len() <= inp.len(),
            i > 0 ==> gif.readable(),
            gif.input() == inp.skip(3 * i),
            forall|k: int| 0 <= k < i ==> #[trigger] map.Colors@[k] == (GifColorType { Red: inp[3 * k], Green: inp[3 * k + 1], Blue: inp[3 * k + 2] }),
        decreases n - i,
    {
        let ghost before = gif.input();
        let mut rgb: [u8; 3] = [0u8, 0u8, 0u8];
        match gif.read_exact(&mut rgb) {
            Ok(()) => {},
            Err(e) => {
                assert(before.len() < 3 || !gif.readable());
                return Err(e);
            },
        }
        map.Colors.set(i, GifColorType { Red: rgb[0], Green: rgb[1], Blue: rgb[2] });
        assert(rgb@[0] == inp[3 * i as int]);
        assert(rgb@[1] == inp[3 * i + 1]);
        assert(rgb@[2] == inp[3 * i + 2]);
        proof {
            assert(gif.input() =~= inp.skip(3 * (i + 1)));
        }
        i = i + 1;
    }
    proof {
        assert(map.Colors@ =~= color_bytes(inp.subrange(0, 3 * n as int), n as int));
    }
    Ok(())
}

/// What a logical screen descriptor at the start of `inp` that is cut short
/// leaves in `g`: the screen's width and height once both words were read,
/// the other fields of the descriptor once its seven bytes were read, and no
/// global color map once the width and height were read; every other field
/// as in `g0`.
pub open spec fn screen_desc_cut(g0: GifFileType, g: GifFileType, inp: Seq<u8>) -> bool {
    if inp.len() < 4 {
        g == with_io(g0, g.Private.io)
    } else if inp.len() < 7 {
        g == with_io(GifFileType {
            SWidth: le16(inp[0], inp[1]),
            SHeight: le16(inp[2], inp[3]),
            SColorMap: None,
            ..g0
        }, g.Private.io)
    } else {
        let p = inp[4];
        let n = table_colors(p);
        g == with_io(GifFileType {
            SWidth: le16(inp[0], inp[1]),
            SHeight: le16(inp[2], inp[3]),
            SColorResolution: color_resolution(p),
            SBackGroundColor: if p & 0x80 != 0 && inp[5] >= n { (n - 1) as i32 } else { inp[5] as i32 },
            AspectByte: inp[6],
            SColorMap: None,
            ..g0
        }, g.Private.io)
    }
}

/// Read the logical screen descriptor and its global color table. When the
/// stream is cut short the error is `DReadFailed`, and the fields read so
/// far stay (`screen_desc_cut`), the global color map cleared.
pub fn dgif_get_screen_desc(gif: &mut GifFileType) -> (r: Result<(), GifError>)
    requires
        old(gif).wf(),
    ensures
        final(gif).wf(),
        final(gif).readable() == old(gif).readable(),
        final(gif).output() == old(gif).output(),
        !old(gif).readable() ==> r == Err::<(), GifError>(GifError::DNotReadable) && *final(gif) == *old(gif),
        old(gif).readable() ==> (r is Ok <==> screen_desc_ok(old(gif).input())),
        old(gif).readable() && r is Err ==> r == Err::<(), GifError>(GifError::DReadFailed)
            && screen_desc_cut(*old(gif), *final(gif), old(gif).input()),
        r is Ok ==> screen_desc_read(*old(gif), *final(gif), old(gif).input())
            && final(gif).input() == old(gif).input().skip(screen_desc_len(old(gif).input())),
{
    if !is_readable(gif) {
        return Err(GifError::DNotReadable);
    }
    let ghost g0 = *gif;
    let ghost inp = gif.input();
    let w = match dgif_get_word(gif) {
        Ok(w) => w,
        Err(e) => return Err(e),
    };
    let h = match dgif_get_word(gif) {
        Ok(h) => h,
        Err(e) => return Err(e),
    };
    gif.SWidth = w;
    gif.SHeight = h;
    let mut buf3: [u8; 3] = [0u8, 0u8, 0u8];
    if gif.read(&mut buf3) != 3 {
        gif.SColorMap = None;
        return Err(GifError::DReadFailed);
    }
    proof {
        assert(gif.input() == inp.skip(7));
        assert(buf3@[0] == inp[4] && buf3@[1] == inp[5] && buf3@[2] == inp[6]);
        lemma_table_colors(buf3@[0]);
    }
    let packed = buf3[0];
    gif.SColorResolution = ((packed & 0x70) as i32 + 1) / 16 + 1;
    let sort_flag = (packed & 0x08) != 0;
    let bits_per_pixel = ((packed & 0x07) + 1) as i32;
    gif.SBackGroundColor = buf3[1] as i32;
    gif.AspectByte = buf3[2];
    let ghost g1 = *gif;
    if (packed & 0x80) != 0 {
        let color_count = pow2_i32(bits_per_pixel);
        let mut map = match ColorMapObject::new(color_count) {
            Ok(m) => m,
            Err(_) => return Err(GifError::DNotEnoughMem),
        };
        if gif.SBackGroundColor >= map.ColorCount {
            gif.SBackGroundColor = map.ColorCount - 1;
        }
        map.SortFlag = sort_flag;
        let ghost g2 = *gif;
        match read_colors(gif, &mut map) {
            Ok(()) => {},
            Err(e) => {
                gif.SColorMap = None;
                return Err(e);
            },
        }
        proof {
            assert(g2.input() == inp.skip(7));
            assert(inp.skip(7).subrange(0, 3 * color_count as int) =~= inp.subrange(7, 7 + 3 * color_count as int));
        }
        gif.SColorMap = Some(map);
        proof {
            assert(gif.input() =~= inp.skip(screen_desc_len(inp)));
            assert(*gif == with_io(GifFileType { SColorMap: gif.SColorMap, ..g2 }, gif.Private.io));
        }
    } else {
        gif.SColorMap = None;
        proof {
            assert(table_bytes(packed) == 0);
        }
    }
    Ok(())
}

/// Whether the handle was opened for reading.
pub fn is_readable(gif: &GifFileType) -> (r: bool)
    ensures
        r == gif.readable(),
{
    match &gif.Private.io {
        IoState::Read { .. } => true,
        IoState::Write { .. } => false,
    }
}

/// Whether the handle was opened for writing.
pub fn is_writable(gif: &GifFileType) -> (r: bool)
    ensures
        r == gif.writable(),
{
    match &gif.Private.io {
        IoState::Read { .. } => false,
        IoState::Write { .. } => true,
    }
}

/// The bytes "GIF".
pub open spec fn gif_prefix() -> Seq<u8> {
    seq![0x47u8, 0x49u8, 0x46u8]
}

/// The bytes "GIF89a".
pub open spec fn gif89_stamp() -> Seq<u8> {
    seq![0x47u8, 0x49u8, 0x46u8, 0x38u8, 0x39u8, 0x61u8]
}

/// The bytes "GIF87a".
pub open spec fn gif87_stamp() -> Seq<u8> {
    seq![0x47u8, 0x49u8, 0x46u8, 0x38u8, 0x37u8, 0x61u8]
}

/// Open a GIF held in `data` for decoding: check the signature and read the
/// logical screen descriptor. A stream too short for the signature gives
/// `DReadFailed`, one not starting with "GIF" gives `DNotGifFile`, and one
/// whose screen descriptor is cut short gives `DNoScreenDesc`.
pub fn dgif_open(data: Vec<u8>) -> (r: Result<GifFileType, GifError>)
    ensures
        data@.len() < 6 ==> r == Err::<GifFileType, GifError>(GifError::DReadFailed),
        data@.len() >= 6 && data@.subrange(0, 3) != gif_prefix() ==> r == Err::<GifFileType, GifError>(GifError::DNotGifFile),
        data@.len() >= 6 && data@.subrange(0, 3) == gif_prefix() ==> (r is Ok <==> screen_desc_ok(data@.skip(6))),
        data@.len() >= 6 && data@.subrange(0, 3) == gif_prefix() && r is Err ==> r == Err::<GifFileType, GifError>(GifError::DNoScreenDesc),
        r matches Ok(g) ==> {
            &&& g.wf()
            &&& g.readable()
            &&& g.Private.gif89 == (data@.subrange(0, 6) == gif89_stamp())
            &&& g.input() == data@.skip(6 + screen_desc_len(data@.skip(6)))
            &&& g.SWidth == le16(data@[6], data@[7])
            &&& g.SHeight == le16(data@[8], data@[9])
            &&& screen_fields(g, data@.skip(6))
            &&& g.Image.Left == 0 && g.Image.Top == 0 && g.Image.Width == 0 && g.Image.Height == 0
            &&& !g.Image.Interlace && g.Image.ColorMap is None
            &&& g.Error == 0
            &&& g.Private.pixel_count == 0
            &&& !g.Private.screen_desc_written && !g.Private.in_image
            &&& g.SavedImages@.len() == 0
            &&& g.ExtensionBlocks@.len() == 0
        },
{
    let ghost d = data@;
    let io = IoState::Read { data, pos: 0 };
    assert(crate::file::io_input(io) =~= d);
    let private = GifFilePrivateType::new(io);
    let mut gif = GifFileType::new(private);
    proof {
        assert(gif.input() =~= d);
        assert(gif.wf()) by {
            assert forall|i: int| 0 <= i < gif.Private.lzw.prefix@.len() implies gif.Private.lzw.prefix@[i] != 4098u32 by {
                assert(gif.Private.lzw.prefix@[i] == 0u32);
            }
            crate::decoder_lzw::lemma_pow2_bits_bound(0);
        }
    }
    let mut buf: [u8; 6] = [0u8; 6];
    if gif.read(&mut buf) != 6 {
        return Err(GifError::DReadFailed);
    }
    proof {
        assert(buf@ =~= d.subrange(0, 6));
    }
    if !(buf[0] == 0x47 && buf[1] == 0x49 && buf[2] == 0x46) {
        proof {
            assert(d.subrange(0, 3) != gif_prefix()) by {
                if d.subrange(0, 3) == gif_prefix() {
                    assert(d.subrange(0, 3)[0] == buf@[0]);
                    assert(d.subrange(0, 3)[1] == buf@[1]);
                    assert(d.subrange(0, 3)[2] == buf@[2]);
                }
            }
        }
        return Err(GifError::DNotGifFile);
    }
    proof {
        assert(d.subrange(0, 3) =~= gif_prefix());
    }
    let is89 = buf[3] == 0x38 && buf[4] == 0x39 && buf[5] == 0x61;
    proof {
        assert(is89 == (d.subrange(0, 6) == gif89_stamp())) by {
            if d.subrange(0, 6) == gif89_stamp() {
                assert(d.subrange(0, 6)[3] == buf@[3]);
                assert(d.subrange(0, 6)[4] == buf@[4]);
                assert(d.subrange(0, 6)[5] == buf@[5]);
            }
            if is89 {
                assert(d.subrange(0, 6) =~= gif89_stamp());
            }
        }
    }
    gif.Private.gif89 = is89;
    let ghost g1 = gif;
    match dgif_get_screen_desc(&mut gif) {
        Ok(()) => {},
        Err(_) => return Err(GifError::DNoScreenDesc),
    }
    proof {
        assert(g1.input() =~= d.skip(6));
    }
    Ok(gif)
}

/// The version that the stream being read was found to have.
pub fn dgif_get_gif_version(gif: &GifFileType) -> (r: &'static str)
    ensures
        r@ == (if gif.Private.gif89 { "GIF89a"@ } else { "GIF87a"@ }),
{
    if gif.Private.gif89 {
        "GIF89a"
    } else {
        "GIF87a"
    }
}

/// The record type announced by the next byte.
pub fn dgif_get_record_type(gif: &mut GifFileType) -> (r: Result<GifRecordType, GifError>)
    requires
        old(gif).wf(),
    ensures
        final(gif).input().len() <= old(gif).input().len(),
        final(gif).wf(),
        same_except_io(*final(gif), *old(gif)),
        final(gif).readable() == old(gif).readable(),
        final(gif).output() == old(gif).output(),
        !old(gif).readable() ==> r == Err::<GifRecordType, GifError>(GifError::DNotReadable) && *final(gif) == *old(gif),
        old(gif).readable() && old(gif).input().len() == 0 ==> r == Err::<GifRecordType, GifError>(GifError::DReadFailed),
        old(gif).readable() && old(gif).input().len() >= 1 ==> {
            let b = old(gif).input()[0];
            &&& final(gif).input() == old(gif).input().skip(1)
            &&& r == (if b == DESCRIPTOR_INTRODUCER {
                Ok::<GifRecordType, GifError>(GifRecordType::IMAGE_DESC_RECORD_TYPE)
            } else if b == EXTENSION_INTRODUCER {
                Ok(GifRecordType::EXTENSION_RECORD_TYPE)
            } else if b == TERMINATOR_INTRODUCER {
                Ok(GifRecordType::TERMINATE_RECORD_TYPE)
            } else {
                Err(GifError::DWrongRecord)
            })
        },
{
    if !is_readable(gif) {
        return Err(GifError::DNotReadable);
    }
    let b = match gif.read_byte() {
        Ok(b) => b,
        Err(e) => return Err(e),
    };
    if b == DESCRIPTOR_INTRODUCER {
        Ok(GifRecordType::IMAGE_DESC_RECORD_TYPE)
    } else if b == EXTENSION_INTRODUCER {
        Ok(GifRecordType::EXTENSION_RECORD_TYPE)
    } else if b == TERMINATOR_INTRODUCER {
        Ok(GifRecordType::TERMINATE_RECORD_TYPE)
    } else {
        Err(GifError::DWrongRecord)
    }
}

/// `inp` starts with a complete sub-block: a length byte and that many bytes.
pub open spec fn sub_block_ok(inp: Seq<u8>) -> bool {
    inp.len() >= 1 && inp.len() >= 1 + inp[0]
}

/// The sub-block buffer `b` holds, in the layout length-then-data, the
/// sub-block at the start of `inp`, the rest of `b0` left as it was.
pub open spec fn holds_sub_block(b0: Seq<u8>, b: Seq<u8>, inp: Seq<u8>) -> bool {
    &&& b.len() == 256
    &&& b[0] == inp[0]
    &&& forall|k: int| 1 <= k <= inp[0] ==> #[trigger] b[k] == inp[k]
    &&& inp[0] == 0 ==> b == b0.update(0, 0)
    &&& forall|k: int| inp[0] < k < 256 ==> #[trigger] b[k] == b0[k]
}

/// Read one sub-block into the sub-block buffer; returns whether it held data
/// (an empty sub-block ends a sequence of them).
fn read_subblock(gif: &mut GifFileType) -> (r: Result<bool, GifError>)
    requires
        old(gif).wf(),
    ensures
        final(gif).input().len() <= old(gif).input().len(),
        final(gif).wf(),
        same_except_io_lzw(*final(gif), *old(gif)),
        final(gif).Private.lzw == (LzwState { buf: final(gif).Private.lzw.buf, ..old(gif).Private.lzw }),
        final(gif).readable() == old(gif).readable(),
        final(gif).output() == old(gif).output(),
        r is Ok <==> (old(gif).readable() && sub_block_ok(old(gif).input())),
        r is Err ==> r == Err::<bool, GifError>(GifError::DReadFailed),
        r matches Ok(nonempty) ==> {
            let inp = old(gif).input();
            &&& nonempty == (inp[0] != 0)
            &&& final(gif).input() == inp.skip(1 + inp[0] as int)
            &&& holds_sub_block(old(gif).Private.lzw.buf@, final(gif).Private.lzw.buf@, inp)
        },
{
    let ghost g0 = *gif;
    let len = match gif.read_byte() {
        Ok(b) => b,
        Err(e) => return Err(e),
    };
    if len > 0 {
        gif.Private.lzw.buf.set(0, len);
        let ghost g1 = *gif;
        let mut block = crate::file::filled_u8(len as usize, 0);
        match gif.read_exact(block.as_mut_slice()) {
            Ok(()) => {},
            Err(e) => return Err(e),
        }
        let ghost g2 = *gif;
        let mut k: usize = 0;
        while k < len as usize
            invariant
                k <= len,
                block@ == g1.input().take(len as int),
                block@.len() == len,
                gif.Private.io == g2.Private.io,
                gif.Private.lzw.buf@.len() == 256,
                gif.Private.lzw.buf@[0] == len,
                forall|q: int| 1 <= q <= k ==> #[trigger] gif.Private.lzw.buf@[q] == block@[q - 1],
                forall|q: int| k < q < 256 ==> #[trigger] gif.Private.lzw.buf@[q] == g0.Private.lzw.buf@[q],
                same_except_io_lzw(*gif, g0),
                gif.Private.lzw == (LzwState { buf: gif.Private.lzw.buf, ..g0.Private.lzw }),
                gif.wf(),
            decreases len - k,
        {
            gif.Private.lzw.buf.set(k + 1, block[k]);
            k = k + 1;
        }
        proof {
            let inp = g0.input();
            assert(g1.input() == inp.skip(1));
            assert(gif.input() =~= inp.skip(1 + len as int));
            assert forall|q: int| 1 <= q <= len implies #[trigger] gif.Private.lzw.buf@[q] == inp[q] by {
                assert(gif.Private.lzw.buf@[q] == block@[q - 1]);
            }
        }
        Ok(true)
    } else {
        gif.Private.lzw.buf.set(0, 0);
        Ok(false)
    }
}

/// Read the next sub-block of an extension.
pub fn dgif_get_extension_next(gif: &mut GifFileType) -> (r: Result<bool, GifError>)
    requires
        old(gif).wf(),
    ensures
        final(gif).input().len() <= old(gif).input().len(),
        final(gif).wf(),
        same_except_io_lzw(*final(gif), *old(gif)),
        final(gif).Private.lzw == (LzwState { buf: final(gif).Private.lzw.buf, ..old(gif).Private.lzw }),
        final(gif).readable() == old(gif).readable(),
        final(gif).output() == old(gif).output(),
        r is Ok <==> (old(gif).readable() && sub_block_ok(old(gif).input())),
        r is Err ==> r == Err::<bool, GifError>(GifError::DReadFailed),
        r matches Ok(nonempty) ==> {
            let inp = old(gif).input();
            &&& nonempty == (inp[0] != 0)
            &&& final(gif).input() == inp.skip(1 + inp[0] as int)
            &&& holds_sub_block(old(gif).Private.lzw.buf@, final(gif).Private.lzw.buf@, inp)
        },
{
    read_subblock(gif)
}

/// Read an extension's function code and its first sub-block; returns
/// whether that sub-block held data (left in the sub-block buffer).
pub fn dgif_get_extension(gif: &mut GifFileType, ext_code: &mut i32) -> (r: Result<bool, GifError>)
    requires
        old(gif).wf(),
    ensures
        final(gif).input().len() <= old(gif).input().len(),
        final(gif).wf(),
        same_except_io_lzw(*final(gif), *old(gif)),
        final(gif).Private.lzw == (LzwState { buf: final(gif).Private.lzw.buf, ..old(gif).Private.lzw }),
        final(gif).readable() == old(gif).readable(),
        final(gif).output() == old(gif).output(),
        !old(gif).readable() ==> r == Err::<bool, GifError>(GifError::DNotReadable) && *final(gif) == *old(gif),
        old(gif).readable() ==> (r is Ok <==> (old(gif).input().len() >= 1 && sub_block_ok(old(gif).input().skip(1)))),
        old(gif).readable() && r is Err ==> r == Err::<bool, GifError>(GifError::DReadFailed),
        r matches Ok(nonempty) ==> {
            let inp = old(gif).input().skip(1);
            &&& *final(ext_code) == old(gif).input()[0] as i32
            &&& nonempty == (inp[0] != 0)
            &&& final(gif).input() == inp.skip(1 + inp[0] as int)
            &&& holds_sub_block(old(gif).Private.lzw.buf@, final(gif).Private.lzw.buf@, inp)
        },
{
    if !is_readable(gif) {
        return Err(GifError::DNotReadable);
    }
    let b = match gif.read_byte() {
        Ok(b) => b,
        Err(e) => return Err(e),
    };
    *ext_code = b as i32;
    dgif_get_extension_next(gif)
}

/// Read the next sub-block of compressed image data, as is; an empty one
/// ends the image's data.
pub fn dgif_get_code_next(gif: &mut GifFileType) -> (r: Result<bool, GifError>)
    requires
        old(gif).wf(),
    ensures
        final(gif).input().len() <= old(gif).input().len(),
        final(gif).wf(),
        same_except_io_lzw(*final(gif) , with_pixel_count(*old(gif), final(gif).Private.pixel_count)),
        final(gif).Private.lzw == (LzwState { buf: final(gif).Private.lzw.buf, ..old(gif).Private.lzw }),
        final(gif).readable() == old(gif).readable(),
        final(gif).output() == old(gif).output(),
        r is Ok <==> (old(gif).readable() && sub_block_ok(old(gif).input())),
        r is Err ==> r == Err::<bool, GifError>(GifError::DReadFailed)
            && final(gif).Private.pixel_count == old(gif).Private.pixel_count,
        r matches Ok(nonempty) ==> {
            let inp = old(gif).input();
            &&& nonempty == (inp[0] != 0)
            &&& final(gif).input() == inp.skip(1 + inp[0] as int)
            &&& holds_sub_block(old(gif).Private.lzw.buf@, final(gif).Private.lzw.buf@, inp)
            &&& final(gif).Private.pixel_count == (if nonempty { old(gif).Private.pixel_count } else { 0 })
        },
{
    match read_subblock(gif) {
        Ok(true) => Ok(true),
        Ok(false) => {
            let ghost b1 = gif.Private.lzw.buf@;
            gif.Private.lzw.buf.set(0, 0);
            assert(gif.Private.lzw.buf@ =~= b1);
            gif.Private.pixel_count = 0;
            Ok(false)
        },
        Err(e) => Err(e),
    }
}

/// `g` with its count of pixels still to come replaced.
pub open spec fn with_pixel_count(g: GifFileType, n: usize) -> GifFileType {
    GifFileType { Private: GifFilePrivateType { pixel_count: n, ..g.Private }, ..g }
}

/// Read the code size and the first sub-block of compressed image data, as
/// is; returns whether the sub-block held data.
pub fn dgif_get_code(gif: &mut GifFileType, code_size: &mut i32) -> (r: Result<bool, GifError>)
    requires
        old(gif).wf(),
    ensures
        final(gif).input().len() <= old(gif).input().len(),
        final(gif).wf(),
        same_except_io_lzw(*final(gif) , with_pixel_count(*old(gif), final(gif).Private.pixel_count)),
        final(gif).Private.lzw == (LzwState { buf: final(gif).Private.lzw.buf, ..old(gif).Private.lzw }),
        final(gif).readable() == old(gif).readable(),
        final(gif).output() == old(gif).output(),
        !old(gif).readable() ==> r == Err::<bool, GifError>(GifError::DNotReadable) && *final(gif) == *old(gif),
        old(gif).readable() ==> *final(code_size) == old(gif).Private.lzw.bits_per_pixel,
        old(gif).readable() ==> (r is Ok <==> sub_block_ok(old(gif).input())),
        old(gif).readable() && r is Err ==> r == Err::<bool, GifError>(GifError::DReadFailed),
        r matches Ok(nonempty) ==> {
            let inp = old(gif).input();
            &&& nonempty == (inp[0] != 0)
            &&& final(gif).input() == inp.skip(1 + inp[0] as int)
            &&& holds_sub_block(old(gif).Private.lzw.buf@, final(gif).Private.lzw.buf@, inp)
            &&& final(gif).Private.pixel_count == (if nonempty { old(gif).Private.pixel_count } else { 0 })
        },
{
    if !is_readable(gif) {
        return Err(GifError::DNotReadable);
    }
    *code_size = gif.Private.lzw.bits_per_pixel;
    dgif_get_code_next(gif)
}

/// The data of the sub-block held, length first, in `buf`; `None` when it
/// is empty.
pub fn buf_payload(buf: &[u8]) -> (r: Option<&[u8]>)
    requires
        buf@.len() >= 1,
        buf@.len() >= 1 + buf@[0],
    ensures
        match r {
            Some(p) => buf@[0] != 0 && p@ == buf@.subrange(1, 1 + buf@[0] as int),
            None => buf@[0] == 0,
        },
{
    let len = buf[0] as usize;
    if len == 0 {
        return None;
    }
    Some(vstd::slice::slice_subrange(buf, 1, 1 + len))
}

/// Read the graphics control block of saved image `image_index` from its
/// first graphics control extension. Fails with `DNoImageDesc` for an index
/// out of range or an image without one, leaving `gcb` at its defaults in
/// the latter case, and with `DImageDefect` for such an extension whose data
/// is not four bytes long.
pub fn dgif_saved_extension_to_gcb(gif: &GifFileType, image_index: i32, gcb: &mut GraphicsControlBlock) -> (r: Result<(), GifError>)
    ensures
        !(0 <= image_index < gif.SavedImages@.len()) ==> r == Err::<(), GifError>(GifError::DNoImageDesc) && *final(gcb) == *old(gcb),
        0 <= image_index < gif.SavedImages@.len() ==> ({
            let blocks = gif.SavedImages@[image_index as int].ExtensionBlocks@;
            match first_graphics_block(blocks) {
                None => r == Err::<(), GifError>(GifError::DNoImageDesc) && *final(gcb) == default_gcb(),
                Some(j) => {
                    let bytes = blocks[j].Bytes@;
                    &&& (r is Ok <==> bytes.len() == 4)
                    &&& r is Ok ==> *final(gcb) == gcb_of_bytes(bytes)
                    &&& r is Err ==> r == Err::<(), GifError>(GifError::DImageDefect) && *final(gcb) == default_gcb()
                },
            }
        }),
{
    if image_index < 0 || image_index as usize >= gif.SavedImages.len() {
        return Err(GifError::DNoImageDesc);
    }
    gcb.DisposalMode = DISPOSAL_UNSPECIFIED;
    gcb.UserInputFlag = false;
    gcb.DelayTime = 0;
    gcb.TransparentColor = NO_TRANSPARENT_COLOR;
    let saved = &gif.SavedImages[image_index as usize];
    let blocks = saved.extension_blocks();
    let mut k: usize = 0;
    while k < blocks.len()
        invariant
            k <= blocks@.len(),
            0 <= image_index < gif.SavedImages@.len(),
            blocks@ == gif.SavedImages@[image_index as int].ExtensionBlocks@,
            *gcb == default_gcb(),
            forall|q: int| 0 <= q < k ==> #[trigger] blocks@[q].Function != GRAPHICS_EXT_FUNC_CODE,
        decreases blocks@.len() - k,
    {
        if blocks[k].Function == GRAPHICS_EXT_FUNC_CODE {
            proof {
                lemma_first_graphics_block(blocks@, k as int);
            }
            return dgif_extension_to_gcb(blocks[k].bytes(), gcb);
        }
        k = k + 1;
    }
    proof {
        lemma_no_graphics_block(blocks@);
    }
    Err(GifError::DNoImageDesc)
}

/// The graphics control block with no disposal, no user input, no delay and
/// no transparent color.
pub open spec fn default_gcb() -> GraphicsControlBlock {
    GraphicsControlBlock {
        DisposalMode: DISPOSAL_UNSPECIFIED,
        UserInputFlag: false,
        DelayTime: 0,
        TransparentColor: NO_TRANSPARENT_COLOR,
    }
}

/// The index of the first graphics control extension block.
pub open spec fn first_graphics_block(blocks: Seq<ExtensionBlock>) -> Option<int>
    decreases blocks.len(),
{
    if blocks.len() == 0 {
        None
    } else if blocks[0].Function == GRAPHICS_EXT_FUNC_CODE {
        Some(0)
    } else {
        match first_graphics_block(blocks.skip(1)) {
            Some(j) => Some(j + 1),
            None => None,
        }
    }
}

pub(crate) proof fn lemma_first_graphics_block(blocks: Seq<ExtensionBlock>, k: int)
    requires
        0 <= k < blocks.len(),
        blocks[k].Function == GRAPHICS_EXT_FUNC_CODE,
        forall|q: int| 0 <= q < k ==> #[trigger] blocks[q].Function != GRAPHICS_EXT_FUNC_CODE,
    ensures
        first_graphics_block(blocks) == Some(k),
    decreases k,
{
    if k > 0 {
        assert(blocks[0].Function != GRAPHICS_EXT_FUNC_CODE);
        assert forall|q: int| 0 <= q < k - 1 implies #[trigger] blocks.skip(1)[q].Function != GRAPHICS_EXT_FUNC_CODE by {
            assert(blocks.skip(1)[q] == blocks[q + 1]);
        }
        lemma_first_graphics_block(blocks.skip(1), k - 1);
    }
}

pub(crate) proof fn lemma_no_graphics_block(blocks: Seq<ExtensionBlock>)
    requires
        forall|q: int| 0 <= q < blocks.len() ==> #[trigger] blocks[q].Function != GRAPHICS_EXT_FUNC_CODE,
    ensures
        first_graphics_block(blocks) is None,
    decreases blocks.len(),
{
    if blocks.len() > 0 {
        assert(blocks[0].Function != GRAPHICS_EXT_FUNC_CODE);
        assert forall|q: int| 0 <= q < blocks.len() - 1 implies #[trigger] blocks.skip(1)[q].Function != GRAPHICS_EXT_FUNC_CODE by {
            assert(blocks.skip(1)[q] == blocks[q + 1]);
        }
        lemma_no_graphics_block(blocks.skip(1));
    }
}

/// The length of the image descriptor at the start of `inp` (after its
/// introducer), local color table included.
pub open spec fn image_desc_len(inp: Seq<u8>) -> int {
    9 + table_bytes(inp[8])
}

/// `inp` starts with a complete image descriptor followed by an LZW code size
/// of at most 8.
pub open spec fn image_header_ok(inp: Seq<u8>) -> bool {
    &&& inp.len() >= 9
    &&& inp.len() >= image_desc_len(inp) + 1
    &&& inp[image_desc_len(inp)] <= 8
}

/// `d` holds the image descriptor at the start of `inp`.
pub open spec fn image_fields(d: crate::types::GifImageDesc, inp: Seq<u8>) -> bool {
    let p = inp[8];
    let n = table_colors(p);
    &&& d.Left == le16(inp[0], inp[1])
    &&& d.Top == le16(inp[2], inp[3])
    &&& d.Width == le16(inp[4], inp[5])
    &&& d.Height == le16(inp[6], inp[7])
    &&& d.Interlace == (p & 0x40 != 0)
    &&& (d.ColorMap is Some <==> p & 0x80 != 0)
    &&& d.ColorMap matches Some(m) ==> {
        &&& m.wf()
        &&& m.ColorCount == n
        &&& !m.SortFlag
        &&& m.Colors@ == color_bytes(inp.subrange(9, 9 + 3 * n), n)
    }
}

/// `g` has read the image header at the start of `inp`: the descriptor is in
/// `Image`, the pixel count is the image's area, and the decompressor is set
/// up with the code size that follows; every other field is as in `g0`.
pub open spec fn image_header_read(g0: GifFileType, g: GifFileType, inp: Seq<u8>) -> bool {
    &&& image_fields(g.Image, inp)
    &&& g.Private.pixel_count == g.Image.Width * g.Image.Height
    &&& crate::decoder_lzw::decoder_reset(g0.Private.lzw, g.Private.lzw, inp[image_desc_len(inp)] as int)
    &&& g.input() == inp.skip(image_desc_len(inp) + 1)
    &&& same_except_io_lzw(g, GifFileType { Image: g.Image, ..with_pixel_count(g0, g.Private.pixel_count) })
}

proof fn lemma_le16_range(b0: u8, b1: u8)
    ensures
        0 <= le16(b0, b1) <= 65535,
{
}

/// Read an image descriptor with its local color table, and set up the
/// decompressor for the image's data.
pub fn dgif_get_image_header(gif: &mut GifFileType) -> (r: Result<(), GifError>)
    requires
        old(gif).wf(),
    ensures
        same_screen(*final(gif), *old(gif)),
        final(gif).SavedImages == old(gif).SavedImages,
        final(gif).ExtensionBlocks == old(gif).ExtensionBlocks,
        final(gif).wf(),
        final(gif).readable() == old(gif).readable(),
        final(gif).output() == old(gif).output(),
        final(gif).input().len() <= old(gif).input().len(),
        !old(gif).readable() ==> r == Err::<(), GifError>(GifError::DNotReadable) && *final(gif) == *old(gif),
        old(gif).readable() ==> (r is Ok <==> image_header_ok(old(gif).input())),
        old(gif).readable() && r is Err ==> r == Err::<(), GifError>(GifError::DReadFailed),
        r is Ok ==> image_header_read(*old(gif), *final(gif), old(gif).input()),
{
    if !is_readable(gif) {
        return Err(GifError::DNotReadable);
    }
    let ghost g0 = *gif;
    let ghost inp = gif.input();
    let left = match dgif_get_word(gif) { Ok(w) => w, Err(e) => return Err(e) };
    gif.Image.Left = left;
    let top = match dgif_get_word(gif) { Ok(w) => w, Err(e) => return Err(e) };
    gif.Image.Top = top;
    let width = match dgif_get_word(gif) { Ok(w) => w, Err(e) => return Err(e) };
    gif.Image.Width = width;
    let height = match dgif_get_word(gif) { Ok(w) => w, Err(e) => return Err(e) };
    gif.Image.Height = height;
    let mut flags: [u8; 1] = [0u8];
    if gif.read(&mut flags) != 1 {
        gif.Image.ColorMap = None;
        return Err(GifError::DReadFailed);
    }
    proof {
        assert(gif.input() =~= inp.skip(9));
        assert(flags@[0] == inp[8]);
        lemma_table_colors(flags@[0]);
        lemma_le16_range(inp[4], inp[5]);
        lemma_le16_range(inp[6], inp[7]);
    }
    let f = flags[0];
    let bits_per_pixel = ((f & 0x07) + 1) as i32;
    gif.Image.Interlace = (f & 0x40) != 0;
    gif.Image.ColorMap = None;
    if (f & 0x80) != 0 {
        let color_count = pow2_i32(bits_per_pixel);
        let mut map = match ColorMapObject::new(color_count) {
            Ok(m) => m,
            Err(_) => return Err(GifError::DNotEnoughMem),
        };
        let ghost g2 = *gif;
        match read_colors(gif, &mut map) {
            Ok(()) => {},
            Err(e) => {
                gif.Image.ColorMap = None;
                return Err(e);
            },
        }
        proof {
            assert(g2.input() == inp.skip(9));
            assert(inp.skip(9).subrange(0, 3 * color_count as int) =~= inp.subrange(9, 9 + 3 * color_count as int));
            assert(gif.input() =~= inp.skip(image_desc_len(inp)));
        }
        gif.Image.ColorMap = Some(map);
    } else {
        proof {
            assert(table_bytes(f) == 0);
        }
    }
    assert(width as int * height as int <= 65535 * 65535) by (nonlinear_arith)
        requires
            0 <= width <= 65535,
            0 <= height <= 65535,
    ;
    let pixel_count = match (width as usize).checked_mul(height as usize) {
        Some(p) => p,
        None => return Err(GifError::DDataTooBig),
    };
    gif.Private.pixel_count = pixel_count;
    let ghost g3 = *gif;
    let r = crate::decoder_lzw::dgif_setup_decompress(gif);
    proof {
        if r is Ok {
            assert(g3.input() == inp.skip(image_desc_len(inp)));
            assert(gif.input() =~= inp.skip(image_desc_len(inp) + 1));
        }
    }
    r
}

/// Read an image descriptor as `dgif_get_image_header` does, and append an
/// image with that descriptor, and no pixels yet, to the saved images.
pub fn dgif_get_image_desc(gif: &mut GifFileType) -> (r: Result<(), GifError>)
    requires
        old(gif).wf(),
    ensures
        final(gif).wf(),
        final(gif).readable() == old(gif).readable(),
        final(gif).output() == old(gif).output(),
        final(gif).input().len() <= old(gif).input().len(),
        !old(gif).readable() ==> r == Err::<(), GifError>(GifError::DNotReadable) && *final(gif) == *old(gif),
        old(gif).readable() ==> (r is Ok <==> image_header_ok(old(gif).input())),
        old(gif).readable() && r is Err ==> r == Err::<(), GifError>(GifError::DReadFailed),
        r is Ok ==> {
            let n = old(gif).SavedImages@.len();
            &&& image_header_read(*old(gif), GifFileType { SavedImages: old(gif).SavedImages, ..*final(gif) }, old(gif).input())
            &&& final(gif).SavedImages@.len() == n + 1
            &&& final(gif).SavedImages@.take(n as int) == old(gif).SavedImages@
            &&& crate::types::same_desc(final(gif).SavedImages@[n as int].ImageDesc, final(gif).Image)
            &&& final(gif).SavedImages@[n as int].RasterBits@.len() == 0
            &&& final(gif).SavedImages@[n as int].ExtensionBlocks@.len() == 0
        },
{
    if !is_readable(gif) {
        return Err(GifError::DNotReadable);
    }
    match dgif_get_image_header(gif) {
        Ok(()) => {},
        Err(e) => return Err(e),
    }
    let ghost g1 = *gif;
    let image = SavedImage::new(gif.Image.duplicate());
    gif.SavedImages.push(image);
    proof {
        assert(GifFileType { SavedImages: g1.SavedImages, ..*gif } == g1);
        assert(gif.SavedImages@.take(g1.SavedImages@.len() as int) =~= g1.SavedImages@);
    }
    Ok(())
}

/// The number of bytes taken by the sub-blocks at the start of `inp` up to
/// and including the empty one that ends them; `None` when they are cut short.
pub open spec fn skip_blocks_len(inp: Seq<u8>) -> Option<int>
    decreases inp.len(),
{
    if !sub_block_ok(inp) {
        None
    } else if inp[0] == 0 {
        Some(1)
    } else {
        match skip_blocks_len(inp.skip(1 + inp[0] as int)) {
            Some(n) => Some(n + 1 + inp[0] as int),
            None => None,
        }
    }
}

/// The sub-blocks up to the empty one that ends them lie within `inp`.
pub proof fn lemma_skip_blocks_len_bound(inp: Seq<u8>)
    ensures
        skip_blocks_len(inp) matches Some(n) ==> 1 <= n <= inp.len(),
    decreases inp.len(),
{
    if sub_block_ok(inp) && inp[0] != 0 {
        lemma_skip_blocks_len_bound(inp.skip(1 + inp[0] as int));
    }
}

/// The length `n`, when there is one, counted from `k` bytes earlier.
pub open spec fn shift_len(n: Option<int>, k: int) -> Option<int> {
    match n {
        Some(x) => Some(x + k),
        None => None,
    }
}

/// `b` is what is left of `a` past some complete sub-blocks with data at the
/// start of `a`: the sub-blocks of `a` up to the empty one that ends them
/// reach as far past `b` as they reach in `a`.
pub open spec fn past_blocks(a: Seq<u8>, b: Seq<u8>) -> bool {
    let k = a.len() - b.len();
    &&& 0 <= k
    &&& b == a.skip(k)
    &&& skip_blocks_len(a) == shift_len(skip_blocks_len(b), k)
}

/// Nothing read is no sub-block passed.
pub proof fn lemma_past_blocks_refl(a: Seq<u8>)
    ensures
        past_blocks(a, a),
{
    assert(a.skip(0) =~= a);
    match skip_blocks_len(a) {
        Some(x) => {},
        None => {},
    }
}

/// Reading a complete sub-block with data passes it.
pub proof fn lemma_past_blocks_step(a: Seq<u8>)
    requires
        sub_block_ok(a),
        a[0] != 0,
    ensures
        past_blocks(a, a.skip(1 + a[0] as int)),
{
    let b = a.skip(1 + a[0] as int);
    assert(a.len() - b.len() == 1 + a[0]);
    match skip_blocks_len(b) {
        Some(x) => {},
        None => {},
    }
}

/// Passing sub-blocks, then more, passes them all.
pub proof fn lemma_past_blocks_trans(a: Seq<u8>, b: Seq<u8>, c: Seq<u8>)
    requires
        past_blocks(a, b),
        past_blocks(b, c),
    ensures
        past_blocks(a, c),
{
    let ka = a.len() - b.len();
    let kb = b.len() - c.len();
    assert(c =~= a.skip(ka + kb));
    match skip_blocks_len(c) {
        Some(x) => {},
        None => {},
    }
}

/// Skip the image's remaining sub-blocks, up to the empty one that ends them.
fn flush_remaining_blocks(gif: &mut GifFileType) -> (r: Result<(), GifError>)
    requires
        old(gif).wf(),
    ensures
        final(gif).wf(),
        same_except_io_lzw(*final(gif), with_pixel_count(*old(gif), final(gif).Private.pixel_count)),
        final(gif).Private.lzw == (LzwState { buf: final(gif).Private.lzw.buf, ..old(gif).Private.lzw }),
        final(gif).readable() == old(gif).readable(),
        final(gif).output() == old(gif).output(),
        final(gif).input().len() <= old(gif).input().len(),
        r is Ok <==> (old(gif).readable() && skip_blocks_len(old(gif).input()) is Some),
        r is Err ==> r == Err::<(), GifError>(GifError::DReadFailed),
        r is Ok ==> final(gif).input() == old(gif).input().skip(skip_blocks_len(old(gif).input())->0)
            && final(gif).Private.pixel_count == 0
            && final(gif).Private.lzw.buf@[0] == 0,
{
    let ghost g0 = *gif;
    let ghost mut consumed: int = 0;
    loop
        invariant
            gif.wf(),
            g0 == *old(gif),
            same_except_io_lzw(*gif, with_pixel_count(g0, gif.Private.pixel_count)),
            gif.Private.lzw == (LzwState { buf: gif.Private.lzw.buf, ..g0.Private.lzw }),
            gif.readable() == g0.readable(),
            gif.output() == g0.output(),
            0 <= consumed <= g0.input().len(),
            gif.input() == g0.input().skip(consumed),
            skip_blocks_len(g0.input()) == (match skip_blocks_len(gif.input()) {
                Some(n) => Some(n + consumed),
                None => None::<int>,
            }),
        decreases gif.input().len(),
    {
        let ghost before = *gif;
        match dgif_get_code_next(gif) {
            Ok(true) => {
                proof {
                    let inp = before.input();
                    consumed = consumed + 1 + inp[0];
                    assert(gif.input() =~= g0.input().skip(consumed));
                }
            },
            Ok(false) => {
                proof {
                    let inp = before.input();
                    assert(gif.input() =~= g0.input().skip(consumed + 1));
                }
                return Ok(());
            },
            Err(e) => return Err(e),
        }
    }
}

/// Decompress the next `line.len()` pixels of the current image into `line`;
/// when they are the image's last, skip the rest of its data. Fails with
/// `DDataTooBig` when fewer pixels remain in the image.
pub fn dgif_get_line(gif: &mut GifFileType, line: &mut [u8]) -> (r: Result<(), GifError>)
    requires
        old(gif).wf(),
    ensures
        final(gif).wf(),
        final(gif).readable() == old(gif).readable(),
        final(gif).output() == old(gif).output(),
        final(gif).input().len() <= old(gif).input().len(),
        final(line)@.len() == old(line)@.len(),
        same_except_io_lzw(*final(gif), with_pixel_count(*old(gif), final(gif).Private.pixel_count)),
        final(gif).Private.lzw.clear_code == old(gif).Private.lzw.clear_code,
        final(gif).Private.lzw.eof_code == old(gif).Private.lzw.eof_code,
        final(gif).Private.lzw.bits_per_pixel == old(gif).Private.lzw.bits_per_pixel,
        !old(gif).readable() ==> r == Err::<(), GifError>(GifError::DNotReadable) && *final(gif) == *old(gif)
            && final(line)@ == old(line)@,
        old(gif).readable() && old(gif).Private.pixel_count < old(line)@.len() ==>
            r == Err::<(), GifError>(GifError::DDataTooBig) && *final(gif) == *old(gif)
            && final(line)@ == old(line)@,
        r is Ok ==> final(gif).Private.pixel_count == old(gif).Private.pixel_count - old(line)@.len(),
        r is Ok && old(line)@.len() == old(gif).Private.pixel_count ==> skip_blocks_len(old(gif).input()) is Some
            && final(gif).input() == old(gif).input().skip(skip_blocks_len(old(gif).input())->0),
        r is Err ==> (r == Err::<(), GifError>(GifError::DNotReadable) || r == Err::<(), GifError>(GifError::DDataTooBig)
            || r == Err::<(), GifError>(GifError::DImageDefect) || r == Err::<(), GifError>(GifError::DEofTooSoon)
            || r == Err::<(), GifError>(GifError::DReadFailed)),
        old(gif).readable() && old(line)@.len() <= old(gif).Private.pixel_count
            && cursor_form(old(gif).Private.lzw.buf@) && old(gif).Private.lzw.stack_ptr <= LZ_MAX_CODE ==> ({
            let l = old(gif).Private.lzw;
            let n = old(line)@.len();
            let (v, out, end) = dec_line(dec_view(*old(gif)), l.clear_code, l.eof_code, l.bits_per_pixel, n);
            &&& r is Ok ==> end == DecEnd::Done
            &&& end == DecEnd::Done ==> final(line)@ == out && (r is Ok || r == Err::<(), GifError>(GifError::DReadFailed))
            &&& end == DecEnd::Done && n == old(gif).Private.pixel_count ==>
                (r is Ok <==> skip_blocks_len(old(gif).input()) is Some)
            &&& r is Ok ==> final(gif).Private.lzw.suffix@ == v.suffix
            &&& r is Ok && n < old(gif).Private.pixel_count ==> past_blocks(old(gif).input(), final(gif).input())
            &&& end == DecEnd::Done && n < old(gif).Private.pixel_count ==> {
                &&& r is Ok
                &&& dec_view(*final(gif)) == v
                &&& cursor_form(final(gif).Private.lzw.buf@)
                &&& final(gif).Private.lzw.stack_ptr <= LZ_MAX_CODE
            }
            &&& end == DecEnd::EndCode ==> r == Err::<(), GifError>(GifError::DEofTooSoon)
                && final(line)@ == out + Seq::new((n - out.len()) as nat, |k: int| 0u8)
            &&& end == DecEnd::Defect ==> r == Err::<(), GifError>(GifError::DImageDefect)
                && final(line)@ == out + old(line)@.skip(out.len() as int)
            &&& end == DecEnd::ShortData ==> r == Err::<(), GifError>(data_end_error(old(gif).input()))
                && final(line)@ == out + old(line)@.skip(out.len() as int)
        }),
{
    if !is_readable(gif) {
        return Err(GifError::DNotReadable);
    }
    let line_len = line.len();
    if gif.Private.pixel_count < line_len {
        return Err(GifError::DDataTooBig);
    }
    gif.Private.pixel_count = gif.Private.pixel_count - line_len;
    let ghost g1 = *gif;
    match crate::decoder_lzw::dgif_decompress_line(gif, line) {
        Ok(()) => {},
        Err(e) => return Err(e),
    }
    let ghost mid = gif.input();
    if gif.Private.pixel_count == 0 {
        match flush_remaining_blocks(gif) {
            Ok(()) => {},
            Err(e) => return Err(e),
        }
        proof {
            let inp = old(gif).input();
            let k = inp.len() - mid.len();
            assert(past_blocks(inp, mid));
            let m = skip_blocks_len(mid)->0;
            lemma_skip_blocks_len_bound(mid);
            assert(skip_blocks_len(inp) == Some(m + k));
            assert(gif.input() =~= mid.skip(m));
            assert(mid.skip(m) =~= inp.skip(m + k));
        }
    }
    Ok(())
}

/// Decompress the next pixel of the current image into `pixel`; when it is
/// the image's last, skip the rest of its data.
pub fn dgif_get_pixel(gif: &mut GifFileType, pixel: &mut u8) -> (r: Result<(), GifError>)
    requires
        old(gif).wf(),
    ensures
        final(gif).wf(),
        final(gif).readable() == old(gif).readable(),
        final(gif).output() == old(gif).output(),
        final(gif).input().len() <= old(gif).input().len(),
        same_except_io_lzw(*final(gif), with_pixel_count(*old(gif), final(gif).Private.pixel_count)),
        !old(gif).readable() ==> r == Err::<(), GifError>(GifError::DNotReadable) && *final(gif) == *old(gif)
            && *final(pixel) == *old(pixel),
        old(gif).readable() && old(gif).Private.pixel_count == 0 ==>
            r == Err::<(), GifError>(GifError::DDataTooBig) && *final(gif) == *old(gif)
            && *final(pixel) == *old(pixel),
        r is Ok ==> final(gif).Private.pixel_count == old(gif).Private.pixel_count - 1,
        r is Ok && old(gif).Private.pixel_count == 1 ==> skip_blocks_len(old(gif).input()) is Some
            && final(gif).input() == old(gif).input().skip(skip_blocks_len(old(gif).input())->0),
        old(gif).readable() && 1 <= old(gif).Private.pixel_count
            && cursor_form(old(gif).Private.lzw.buf@) && old(gif).Private.lzw.stack_ptr <= LZ_MAX_CODE ==> ({
            let l = old(gif).Private.lzw;
            let (v, out, end) = dec_line(dec_view(*old(gif)), l.clear_code, l.eof_code, l.bits_per_pixel, 1);
            &&& r is Ok ==> end == DecEnd::Done
            &&& end == DecEnd::Done ==> *final(pixel) == out[0] && (r is Ok || r == Err::<(), GifError>(GifError::DReadFailed))
            &&& end != DecEnd::Done ==> *final(pixel) == *old(pixel)
            &&& end == DecEnd::Done && old(gif).Private.pixel_count == 1 ==>
                (r is Ok <==> skip_blocks_len(old(gif).input()) is Some)
            &&& end == DecEnd::Done && 1 < old(gif).Private.pixel_count ==> {
                &&& r is Ok
                &&& dec_view(*final(gif)) == v
                &&& cursor_form(final(gif).Private.lzw.buf@)
                &&& final(gif).Private.lzw.stack_ptr <= LZ_MAX_CODE
            }
            &&& end == DecEnd::EndCode ==> r == Err::<(), GifError>(GifError::DEofTooSoon)
            &&& end == DecEnd::Defect ==> r == Err::<(), GifError>(GifError::DImageDefect)
            &&& end == DecEnd::ShortData ==> r == Err::<(), GifError>(data_end_error(old(gif).input()))
        }),
{
    if !is_readable(gif) {
        return Err(GifError::DNotReadable);
    }
    if gif.Private.pixel_count == 0 {
        return Err(GifError::DDataTooBig);
    }
    gif.Private.pixel_count = gif.Private.pixel_count - 1;
    let mut px: [u8; 1] = [0u8];
    match crate::decoder_lzw::dgif_decompress_line(gif, &mut px) {
        Ok(()) => {},
        Err(e) => return Err(e),
    }
    *pixel = px[0];
    let ghost mid = gif.input();
    if gif.Private.pixel_count == 0 {
        match flush_remaining_blocks(gif) {
            Ok(()) => {},
            Err(e) => return Err(e),
        }
        proof {
            let inp = old(gif).input();
            let k = inp.len() - mid.len();
            assert(past_blocks(inp, mid));
            let m = skip_blocks_len(mid)->0;
            lemma_skip_blocks_len_bound(mid);
            assert(skip_blocks_len(inp) == Some(m + k));
            assert(gif.input() =~= mid.skip(m));
            assert(mid.skip(m) =~= inp.skip(m + k));
        }
    }
    Ok(())
}

/// The code that the decompressor reads next, when its sub-block buffer is
/// in the form that the decompressor leaves it.
pub open spec fn next_code(g: GifFileType) -> int {
    let l = g.Private.lzw;
    let rb = l.running_bits as int;
    let k = crate::decoder_lzw::bytes_needed(l.crnt_shift_state as int, rb);
    let f = crate::decoder_lzw::fill_bits(l.crnt_shift_dword, l.crnt_shift_state as int,
        crate::decoder_lzw::code_stream(g).take(k));
    (f & ((1u64 << (rb as u64)) - 1) as u64) as int
}

/// Read the next LZW code of the image's data, as is. The end-of-information
/// code is returned as -1, after skipping the rest of the image's data; on a
/// clear code the code width is reset.
pub fn dgif_get_lz_codes(gif: &mut GifFileType, code: &mut i32) -> (r: Result<(), GifError>)
    requires
        old(gif).wf(),
    ensures
        final(gif).wf(),
        final(gif).readable() == old(gif).readable(),
        final(gif).output() == old(gif).output(),
        final(gif).input().len() <= old(gif).input().len(),
        same_except_io_lzw(*final(gif), with_pixel_count(*old(gif), final(gif).Private.pixel_count)),
        !old(gif).readable() ==> r == Err::<(), GifError>(GifError::DNotReadable) && *final(gif) == *old(gif),
        old(gif).readable() && cursor_form(old(gif).Private.lzw.buf@) ==> {
            let raw = next_code(*old(gif));
            &&& r is Err && raw != old(gif).Private.lzw.eof_code ==> (r == Err::<(), GifError>(GifError::DImageDefect)
                || r == Err::<(), GifError>(GifError::DReadFailed))
                && crate::decoder_lzw::read_code(dec_view(*old(gif))) is None
            &&& r is Ok || raw == old(gif).Private.lzw.eof_code
                || crate::decoder_lzw::read_code(dec_view(*old(gif))) is None
        },
        old(gif).readable() && cursor_form(old(gif).Private.lzw.buf@) && r is Ok ==> {
            let raw = next_code(*old(gif));
            &&& raw == old(gif).Private.lzw.eof_code ==> *final(code) == -1 && final(gif).Private.pixel_count == 0
            &&& raw != old(gif).Private.lzw.eof_code ==> *final(code) == raw
        },
        r is Ok && *final(code) == old(gif).Private.lzw.clear_code && *final(code) != -1 ==> {
            let l = final(gif).Private.lzw;
            &&& l.running_code == l.eof_code + 1
            &&& l.running_bits == l.bits_per_pixel + 1
            &&& l.max_code1 == pow2_bits(l.running_bits as int)
        },
{
    if !is_readable(gif) {
        return Err(GifError::DNotReadable);
    }
    let ghost g0 = *gif;
    match crate::decoder_lzw::dgif_decompress_input(gif, code) {
        Ok(()) => {},
        Err(e) => return Err(e),
    }
    proof {
        if crate::decoder_lzw::cursor_form(g0.Private.lzw.buf@) {
            assert(*code as int == next_code(g0));
        }
    }
    if *code == gif.Private.lzw.eof_code {
        match flush_remaining_blocks(gif) {
            Ok(()) => {},
            Err(e) => return Err(e),
        }
        *code = -1;
    } else if *code == gif.Private.lzw.clear_code {
        let bpp = gif.Private.lzw.bits_per_pixel;
        gif.Private.lzw.running_code = gif.Private.lzw.eof_code + 1;
        gif.Private.lzw.running_bits = bpp + 1;
        gif.Private.lzw.max_code1 = pow2_i32(bpp + 1);
    }
    Ok(())
}

/// The fields of the logical screen are the same in `a` and `b`.
pub open spec fn same_screen(a: GifFileType, b: GifFileType) -> bool {
    &&& a.SWidth == b.SWidth
    &&& a.SHeight == b.SHeight
    &&& a.SColorResolution == b.SColorResolution
    &&& a.SBackGroundColor == b.SBackGroundColor
    &&& a.AspectByte == b.AspectByte
    &&& a.SColorMap == b.SColorMap
}

/// A decoded image: positive dimensions whose product fits in an `i32`, and
/// a raster of that many pixels.
pub open spec fn decoded_image(im: SavedImage) -> bool {
    let w = im.ImageDesc.Width;
    let h = im.ImageDesc.Height;
    &&& 0 < w && 0 < h
    &&& w * h <= i32::MAX
    &&& im.RasterBits@.len() == w * h
}

/// The interlacing pass that holds row `r`: 0 for every 8th row from row 0,
/// 1 for every 8th row from row 4, 2 for every 4th row from row 2, and 3 for
/// the odd rows.
pub open spec fn interlace_pass(r: int) -> int {
    if r % 8 == 0 {
        0
    } else if r % 8 == 4 {
        1
    } else if r % 4 == 2 {
        2
    } else {
        3
    }
}

/// The first row of interlacing pass `p`.
pub open spec fn pass_offset(p: int) -> int {
    if p == 0 {
        0
    } else if p == 1 {
        4
    } else if p == 2 {
        2
    } else {
        1
    }
}

/// The distance between the rows of interlacing pass `p`.
pub open spec fn pass_step(p: int) -> int {
    if p <= 1 {
        8
    } else if p == 2 {
        4
    } else {
        2
    }
}

/// The number of rows stored before those of interlacing pass `p` in an
/// interlaced image `h` rows high.
pub open spec fn pass_start(p: int, h: int) -> int
    decreases p,
{
    if p <= 0 {
        0
    } else {
        pass_start(p - 1, h) + pass_len(pass_offset(p - 1), pass_step(p - 1), h)
    }
}

/// Where row `r` of an interlaced image `h` rows high comes among the rows
/// as they are stored: after the rows of the passes before its own, and
/// after the rows above it in its own pass.
pub open spec fn interlaced_pos(r: int, h: int) -> int {
    let p = interlace_pass(r);
    pass_start(p, h) + (r - pass_offset(p)) / pass_step(p)
}

/// Row `r` of the pixels `s`, rows `w` pixels wide.
pub open spec fn row_of(s: Seq<u8>, r: int, w: int) -> Seq<u8> {
    s.subrange(r * w, r * w + w)
}

/// Row `r` is read before row `j` of interlacing pass `p`.
pub open spec fn row_read_before(r: int, p: int, j: int) -> bool {
    interlace_pass(r) < p || (interlace_pass(r) == p && r < j)
}

/// Row `c` of interlacing pass `p` lies in that pass, `c` rows into it.
proof fn lemma_pass_row(p: int, c: int)
    requires
        0 <= p < 4,
        0 <= c,
    ensures
        interlace_pass(pass_offset(p) + c * pass_step(p)) == p,
        (pass_offset(p) + c * pass_step(p) - pass_offset(p)) / pass_step(p) == c,
{
    let j = pass_offset(p) + c * pass_step(p);
    if p == 0 {
        assert(j % 8 == 0 && (j - 0) / 8 == c) by (nonlinear_arith)
            requires j == c * 8, c >= 0;
    } else if p == 1 {
        assert(j % 8 == 4 && (j - 4) / 8 == c) by (nonlinear_arith)
            requires j == 4 + c * 8, c >= 0;
    } else if p == 2 {
        assert(j % 8 != 0 && j % 8 != 4 && j % 4 == 2 && (j - 2) / 4 == c) by (nonlinear_arith)
            requires j == 2 + c * 4, c >= 0;
    } else {
        assert(j % 8 != 0 && j % 8 != 4 && j % 4 != 2 && (j - 1) / 2 == c) by (nonlinear_arith)
            requires j == 1 + c * 2, c >= 0;
    }
}

/// A row of interlacing pass `p` is a row of it: `q` rows into it, where
/// `q` is below `c` when the row lies above row `c` of the pass.
proof fn lemma_pass_row_before(r: int, p: int, c: int)
    requires
        0 <= r,
        0 <= p < 4,
        0 <= c,
        interlace_pass(r) == p,
    ensures
        pass_offset(p) <= r,
        r == pass_offset(p) + ((r - pass_offset(p)) / pass_step(p)) * pass_step(p),
        r < pass_offset(p) + c * pass_step(p) ==> (r - pass_offset(p)) / pass_step(p) < c,
{
    let q = (r - pass_offset(p)) / pass_step(p);
    if p == 0 {
        assert(0 <= r && r == q * 8 && (r < c * 8 ==> q < c)) by (nonlinear_arith)
            requires r % 8 == 0, r >= 0, q == r / 8, c >= 0;
    } else if p == 1 {
        assert(4 <= r && r == 4 + q * 8 && (r < 4 + c * 8 ==> q < c)) by (nonlinear_arith)
            requires r % 8 == 4, r >= 0, q == (r - 4) / 8, c >= 0;
    } else if p == 2 {
        assert(2 <= r && r == 2 + q * 4 && (r < 2 + c * 4 ==> q < c)) by (nonlinear_arith)
            requires r % 8 != 0, r % 8 != 4, r % 4 == 2, r >= 0, q == (r - 2) / 4, c >= 0;
    } else {
        assert(1 <= r && r == 1 + q * 2 && (r < 1 + c * 2 ==> q < c)) by (nonlinear_arith)
            requires r % 8 != 0, r % 8 != 4, r % 4 != 2, r >= 0, q == (r - 1) / 2, c >= 0;
    }
}

/// The rows stored before pass `p + 1` are those before pass `p` and the
/// rows of pass `p`; all four passes hold the `h` rows.
proof fn lemma_pass_start(p: int, h: int)
    requires
        0 <= p < 4,
        0 <= h,
    ensures
        pass_start(p + 1, h) == pass_start(p, h) + pass_len(pass_offset(p), pass_step(p), h),
        0 <= pass_start(p, h) <= pass_start(p + 1, h) <= pass_start(4, h),
        pass_start(4, h) == h,
{
    reveal_with_fuel(pass_start, 5);
    crate::encoder::lemma_row_order_len(h, true);
    assert(pass_len(0, 8, h) >= 0 && pass_len(4, 8, h) >= 0 && pass_len(2, 4, h) >= 0 && pass_len(1, 2, h) >= 0) by {
        crate::encoder::lemma_pass_len(0, 8, h, 0);
        crate::encoder::lemma_pass_len(4, 8, h, 0);
        crate::encoder::lemma_pass_len(2, 4, h, 0);
        crate::encoder::lemma_pass_len(1, 2, h, 0);
    }
    assert(pass_start(1, h) == pass_len(0, 8, h));
    assert(pass_start(2, h) == pass_start(1, h) + pass_len(4, 8, h));
    assert(pass_start(3, h) == pass_start(2, h) + pass_len(2, 4, h));
    assert(pass_start(4, h) == pass_start(3, h) + pass_len(1, 2, h));
}

/// Row `r` read before row `j + step` of its pass but not before row `j`
/// is row `j` itself.
proof fn lemma_read_next(r: int, p: int, c: int)
    requires
        0 <= r,
        0 <= p < 4,
        0 <= c,
        row_read_before(r, p, pass_offset(p) + (c + 1) * pass_step(p)),
        !row_read_before(r, p, pass_offset(p) + c * pass_step(p)),
    ensures
        r == pass_offset(p) + c * pass_step(p),
{
    assert(interlace_pass(r) == p);
    lemma_pass_row_before(r, p, c + 1);
    let q = (r - pass_offset(p)) / pass_step(p);
    let s = pass_step(p);
    let o = pass_offset(p);
    assert(q == c) by (nonlinear_arith)
        requires s > 0, r == o + q * s, r >= o + c * s, q < c + 1;
}

/// Writing row `j` of `raster` leaves row `r` above or below it as it was,
/// and the rows of `out` before position `done` stay when `row` follows.
proof fn lemma_row_kept(raster: Seq<u8>, raster2: Seq<u8>, out: Seq<u8>, row: Seq<u8>, w: int, r: int, j: int, pr: int, done: int)
    requires
        0 < w,
        0 <= r,
        0 <= j,
        r != j,
        (r + 1) * w <= raster.len(),
        raster2.len() == raster.len(),
        forall|q: int| 0 <= q < raster.len() && !(j * w <= q < j * w + w) ==> raster2[q] == raster[q],
        0 <= pr < done,
        out.len() == done * w,
        row_of(raster, r, w) == row_of(out, pr, w),
    ensures
        row_of(raster2, r, w) == row_of(out + row, pr, w),
{
    assert(r * w + w <= j * w || j * w + w <= r * w) by (nonlinear_arith)
        requires r != j, 0 < w, 0 <= r, 0 <= j;
    assert(pr * w + w <= done * w && 0 <= pr * w) by (nonlinear_arith)
        requires pr < done, 0 < w, 0 <= pr;
    assert(0 <= r * w && r * w + w == (r + 1) * w) by (nonlinear_arith)
        requires 0 <= r, 0 < w;
    assert(row_of(raster2, r, w) =~= row_of(raster, r, w));
    assert(row_of(out + row, pr, w) =~= row_of(out, pr, w));
}

/// Decompress the rows of an interlaced image into its raster, in the four
/// interlacing passes. Row after row is decompressed from the image's data
/// as `dgif_get_line` does it; a row's pixels go to the raster, at the row
/// that comes at that position in the interlaced order (`interlaced_pos`).
/// The first failure of a row is the result, as `dgif_get_line` gives it.
fn read_interlaced(gif: &mut GifFileType, sp: &mut SavedImage) -> (r: Result<(), GifError>)
    requires
        old(gif).wf(),
        0 < old(sp).ImageDesc.Width,
        0 < old(sp).ImageDesc.Height <= 65535,
        old(sp).RasterBits@.len() == old(sp).ImageDesc.Width * old(sp).ImageDesc.Height,
    ensures
        final(gif).wf(),
        final(gif).readable() == old(gif).readable(),
        final(gif).output() == old(gif).output(),
        final(gif).input().len() <= old(gif).input().len(),
        same_except_io_lzw(*final(gif), with_pixel_count(*old(gif), final(gif).Private.pixel_count)),
        final(sp).ImageDesc == old(sp).ImageDesc,
        final(sp).ExtensionBlocks == old(sp).ExtensionBlocks,
        final(sp).RasterBits@.len() == old(sp).RasterBits@.len(),
        !old(gif).readable() ==> r == Err::<(), GifError>(GifError::DNotReadable),
        r is Ok ==> final(gif).Private.pixel_count
            == old(gif).Private.pixel_count - old(sp).ImageDesc.Width * old(sp).ImageDesc.Height,
        r is Err ==> (r == Err::<(), GifError>(GifError::DNotReadable) || r == Err::<(), GifError>(GifError::DDataTooBig)
            || r == Err::<(), GifError>(GifError::DImageDefect) || r == Err::<(), GifError>(GifError::DEofTooSoon)
            || r == Err::<(), GifError>(GifError::DReadFailed)),
        ({
            let w = old(sp).ImageDesc.Width as int;
            let h = old(sp).ImageDesc.Height as int;
            let l = old(gif).Private.lzw;
            old(gif).readable() && w * h <= old(gif).Private.pixel_count
                && cursor_form(l.buf@) && l.stack_ptr <= LZ_MAX_CODE ==> {
                let (v, out, end) = dec_line(dec_view(*old(gif)), l.clear_code, l.eof_code, l.bits_per_pixel, (w * h) as nat);
                &&& r is Ok ==> end == DecEnd::Done
                    && forall|row: int| 0 <= row < h ==>
                        #[trigger] row_of(final(sp).RasterBits@, row, w) == row_of(out, interlaced_pos(row, h), w)
                &&& end == DecEnd::Done ==> r is Ok || r == Err::<(), GifError>(GifError::DReadFailed)
                &&& end == DecEnd::Done && w * h < old(gif).Private.pixel_count ==> r is Ok
                &&& end == DecEnd::EndCode ==> r == Err::<(), GifError>(GifError::DEofTooSoon)
                &&& end == DecEnd::Defect ==> r == Err::<(), GifError>(GifError::DImageDefect)
                &&& end == DecEnd::ShortData ==> r == Err::<(), GifError>(data_end_error(old(gif).input()))
                &&& w * h == old(gif).Private.pixel_count ==> {
                    &&& end == DecEnd::Done ==> (r is Ok <==> skip_blocks_len(old(gif).input()) is Some)
                    &&& r is Ok ==> final(gif).Private.lzw.suffix@ == v.suffix
                        && final(gif).input() == old(gif).input().skip(skip_blocks_len(old(gif).input())->0)
                }
            }
        }),
{
    let offsets: [i32; 4] = [0, 4, 2, 1];
    let jumps: [i32; 4] = [8, 8, 4, 2];
    let height = sp.ImageDesc.Height;
    let width = sp.ImageDesc.Width as usize;
    let ghost g0 = *gif;
    let ghost l0 = g0.Private.lzw;
    let ghost w = width as int;
    let ghost h = height as int;
    let ghost n = w * h;
    let ghost exact = g0.readable() && n <= g0.Private.pixel_count && cursor_form(l0.buf@) && l0.stack_ptr <= LZ_MAX_CODE;
    let ghost v0 = dec_view(g0);
    let ghost mut done: int = 0;
    let ghost mut px: int = 0;
    proof {
        let d = dec_line(v0, l0.clear_code, l0.eof_code, l0.bits_per_pixel, 0);
        if exact {
            assert(DecView { pending: v0.pending.skip(0), ..v0 } == v0) by {
                assert(v0.pending.skip(0) =~= v0.pending);
            }
            assert(d.1 =~= Seq::<u8>::empty());
            lemma_past_blocks_refl(g0.input());
            if g0.Private.pixel_count == 0 {
                assert(0 < w * h) by (nonlinear_arith)
                    requires 0 < w, 0 < h;
            }
        }
        lemma_pass_start(0, h);
    }
    let mut pass: usize = 0;
    while pass < 4
        invariant
            gif.wf(),
            g0 == *old(gif),
            g0.wf(),
            old(sp).RasterBits@.len() == n,
            l0 == g0.Private.lzw,
            v0 == dec_view(g0),
            w == width, h == height, n == w * h,
            exact == (g0.readable() && n <= g0.Private.pixel_count && cursor_form(l0.buf@) && l0.stack_ptr <= LZ_MAX_CODE),
            gif.readable() == g0.readable(),
            gif.output() == g0.output(),
            gif.input().len() <= g0.input().len(),
            same_except_io_lzw(*gif, with_pixel_count(g0, gif.Private.pixel_count)),
            gif.Private.lzw.clear_code == l0.clear_code,
            gif.Private.lzw.eof_code == l0.eof_code,
            gif.Private.lzw.bits_per_pixel == l0.bits_per_pixel,
            sp.ImageDesc == old(sp).ImageDesc,
            sp.ExtensionBlocks == old(sp).ExtensionBlocks,
            sp.RasterBits@.len() == n,
            height == sp.ImageDesc.Height,
            width == sp.ImageDesc.Width,
            0 < height <= 65535,
            0 < width,
            offsets@ == seq![0i32, 4, 2, 1],
            jumps@ == seq![8i32, 8, 4, 2],
            pass <= 4,
            done == pass_start(pass as int, h),
            px == done * w,
            gif.Private.pixel_count == g0.Private.pixel_count - px,
            done > 0 ==> g0.readable(),
            forall|r: int| 0 <= r < h && row_read_before(r, pass as int, 0) ==> interlaced_pos(r, h) < done,
            exact ==> ({
                let d = dec_line(v0, l0.clear_code, l0.eof_code, l0.bits_per_pixel, px as nat);
                &&& d.2 == DecEnd::Done
                &&& d.1.len() == px
                &&& forall|r: int| 0 <= r < h && row_read_before(r, pass as int, 0) ==>
                    #[trigger] row_of(sp.RasterBits@, r, w) == row_of(d.1, interlaced_pos(r, h), w)
                &&& px < g0.Private.pixel_count ==> {
                    &&& dec_view(*gif) == d.0
                    &&& cursor_form(gif.Private.lzw.buf@)
                    &&& gif.Private.lzw.stack_ptr <= LZ_MAX_CODE
                    &&& past_blocks(g0.input(), gif.input())
                }
                &&& px == g0.Private.pixel_count ==> {
                    &&& skip_blocks_len(g0.input()) is Some
                    &&& gif.input() == g0.input().skip(skip_blocks_len(g0.input())->0)
                    &&& gif.Private.lzw.suffix@ == d.0.suffix
                }
            }),
        decreases 4 - pass,
    {
        let mut j = offsets[pass];
        let ghost p = pass as int;
        let ghost off = pass_offset(p);
        let ghost step = pass_step(p);
        let ghost mut c: int = 0;
        proof {
            lemma_pass_start(p, h);
            assert forall|r: int| 0 <= r < h && row_read_before(r, p, off) implies row_read_before(r, p, 0) by {
                if interlace_pass(r) == p {
                    lemma_pass_row_before(r, p, 0);
                }
            }
        }
        while j < height
            invariant
                gif.wf(),
                g0 == *old(gif),
                g0.wf(),
                old(sp).RasterBits@.len() == n,
            g0.wf(),
            old(sp).RasterBits@.len() == n,
                l0 == g0.Private.lzw,
                v0 == dec_view(g0),
                w == width, h == height, n == w * h,
                exact == (g0.readable() && n <= g0.Private.pixel_count && cursor_form(l0.buf@) && l0.stack_ptr <= LZ_MAX_CODE),
                gif.readable() == g0.readable(),
                gif.output() == g0.output(),
                gif.input().len() <= g0.input().len(),
                same_except_io_lzw(*gif, with_pixel_count(g0, gif.Private.pixel_count)),
                gif.Private.lzw.clear_code == l0.clear_code,
                gif.Private.lzw.eof_code == l0.eof_code,
                gif.Private.lzw.bits_per_pixel == l0.bits_per_pixel,
                sp.ImageDesc == old(sp).ImageDesc,
                sp.ExtensionBlocks == old(sp).ExtensionBlocks,
                sp.RasterBits@.len() == n,
                height == sp.ImageDesc.Height,
                width == sp.ImageDesc.Width,
                0 < height <= 65535,
                0 < width,
                jumps@ == seq![8i32, 8, 4, 2],
                pass < 4,
                p == pass,
                off == pass_offset(p),
                step == pass_step(p),
                step == jumps@[p],
                0 <= c <= pass_len(off, step, h),
                j == off + c * step,
                0 <= j <= height + 8,
                done == pass_start(p, h) + c,
                pass_start(p + 1, h) == pass_start(p, h) + pass_len(off, step, h),
                pass_start(p + 1, h) <= h,
                px == done * w,
                gif.Private.pixel_count == g0.Private.pixel_count - px,
                done > 0 ==> g0.readable(),
                forall|r: int| 0 <= r < h && row_read_before(r, p, j as int) ==> interlaced_pos(r, h) < done,
                exact ==> ({
                    let d = dec_line(v0, l0.clear_code, l0.eof_code, l0.bits_per_pixel, px as nat);
                    &&& d.2 == DecEnd::Done
                    &&& d.1.len() == px
                    &&& forall|r: int| 0 <= r < h && row_read_before(r, p, j as int) ==>
                        #[trigger] row_of(sp.RasterBits@, r, w) == row_of(d.1, interlaced_pos(r, h), w)
                    &&& px < g0.Private.pixel_count ==> {
                        &&& dec_view(*gif) == d.0
                        &&& cursor_form(gif.Private.lzw.buf@)
                        &&& gif.Private.lzw.stack_ptr <= LZ_MAX_CODE
                        &&& past_blocks(g0.input(), gif.input())
                    }
                    &&& px == g0.Private.pixel_count ==> {
                        &&& skip_blocks_len(g0.input()) is Some
                        &&& gif.input() == g0.input().skip(skip_blocks_len(g0.input())->0)
                        &&& gif.Private.lzw.suffix@ == d.0.suffix
                    }
                }),
            decreases height + 8 - j,
        {
            proof {
                crate::encoder::lemma_pass_len(off, step, h, c);
                lemma_pass_row(p, c);
                assert(done < h);
                assert((done + 1) * w <= n && done * w + w == (done + 1) * w) by (nonlinear_arith)
                    requires done + 1 <= h, 0 < w, n == w * h;
                assert((j + 1) * w <= n && j * w + w == (j + 1) * w && 0 <= j * w) by (nonlinear_arith)
                    requires j + 1 <= h, 0 <= j, 0 < w, n == w * h;
            }
            let bounds = sp.raster_bits_row_mut(j as usize);
            let (start, end) = match bounds {
                Some(b) => b,
                None => return Err(GifError::DDataTooBig),
            };
            let mut row = crate::file::filled_u8(width, 0);
            let ghost before = *gif;
            let ghost d = dec_line(v0, l0.clear_code, l0.eof_code, l0.bits_per_pixel, px as nat);
            proof {
                if exact {
                    lemma_dec_line_split(v0, l0.clear_code, l0.eof_code, l0.bits_per_pixel, px as nat, w as nat);
                    assert((px + w) as nat == (px as nat + w as nat) as nat);
                }
            }
            match dgif_get_line(gif, row.as_mut_slice()) {
                Ok(()) => {},
                Err(e) => {
                    proof {
                        crate::file::lemma_same_except_io_lzw_trans(*gif, with_pixel_count(before, gif.Private.pixel_count), with_pixel_count(g0, gif.Private.pixel_count));
                        if exact {
                            let d2 = dec_line(d.0, l0.clear_code, l0.eof_code, l0.bits_per_pixel, w as nat);
                            if d2.2 == DecEnd::Done {
                                assert(px + w >= g0.Private.pixel_count);
                                assert(px + w == n);
                                if g0.Private.pixel_count == n {
                                    let bi = before.input();
                                    assert(past_blocks(g0.input(), bi));
                                    assert(skip_blocks_len(bi) is None);
                                }
                            } else {
                                lemma_dec_line_stop(v0, l0.clear_code, l0.eof_code, l0.bits_per_pixel, (px + w) as nat, (n - px - w) as nat);
                                assert(((px + w) as nat + (n - px - w) as nat) as nat == n as nat);
                            }
                        }
                    }
                    return Err(e);
                },
            }
            proof {
                crate::file::lemma_same_except_io_lzw_trans(*gif, with_pixel_count(before, gif.Private.pixel_count), with_pixel_count(g0, gif.Private.pixel_count));
                if exact {
                    let bi = before.input();
                    if px + w < g0.Private.pixel_count {
                        lemma_past_blocks_trans(g0.input(), bi, gif.input());
                    } else {
                        let k = g0.input().len() - bi.len();
                        let m = skip_blocks_len(bi)->0;
                        lemma_skip_blocks_len_bound(bi);
                        assert(skip_blocks_len(g0.input()) == Some(m + k));
                        assert(bi.skip(m) =~= g0.input().skip(m + k));
                    }
                }
            }
            let ghost raster0 = sp.RasterBits@;
            let mut k: usize = 0;
            while k < width
                invariant
                    k <= width,
                    row@.len() == width,
                    start == j * w,
                    start + width == end,
                    end <= sp.RasterBits@.len(),
                    sp.RasterBits@.len() == raster0.len(),
                    forall|q: int| 0 <= q < raster0.len() && !(start <= q < start + k) ==> sp.RasterBits@[q] == raster0[q],
                    forall|q: int| 0 <= q < k ==> sp.RasterBits@[start + q] == row@[q],
                    sp.ImageDesc == old(sp).ImageDesc,
                    sp.ExtensionBlocks == old(sp).ExtensionBlocks,
                decreases width - k,
            {
                sp.RasterBits.set(start + k, row[k]);
                k = k + 1;
            }
            let step_x = jumps[pass];
            assert(2 <= step_x <= 8);
            j = j + step_x;
            proof {
                let raster2 = sp.RasterBits@;
                let jr = j - step;
                assert(jr == off + c * step);
                assert(interlaced_pos(jr, h) == done);
                assert forall|r: int| 0 <= r < h && row_read_before(r, p, j as int) implies interlaced_pos(r, h) < done + 1 by {
                    if !row_read_before(r, p, jr) {
                        assert(j == off + (c + 1) * step) by (nonlinear_arith)
                            requires j == jr + step, jr == off + c * step;
                        lemma_read_next(r, p, c);
                    }
                }
                if exact {
                    let out0 = d.1;
                    let d1 = dec_line(v0, l0.clear_code, l0.eof_code, l0.bits_per_pixel, (px + w) as nat);
                    assert(d1.1 == out0 + row@);
                    assert forall|r: int| 0 <= r < h && row_read_before(r, p, j as int) implies
                        #[trigger] row_of(raster2, r, w) == row_of(d1.1, interlaced_pos(r, h), w) by {
                        if row_read_before(r, p, jr) {
                            assert(row_of(raster0, r, w) == row_of(out0, interlaced_pos(r, h), w));
                            assert((r + 1) * w <= n) by (nonlinear_arith)
                                requires r + 1 <= h, 0 < w, n == w * h;
                            let pr = interlace_pass(r);
                            lemma_pass_row_before(r, pr, 0);
                            lemma_pass_start(pr, h);
                            assert(0 <= (r - pass_offset(pr)) / pass_step(pr));
                            lemma_row_kept(raster0, raster2, out0, row@, w, r, jr, interlaced_pos(r, h), done);
                        } else {
                            assert(j == off + (c + 1) * step) by (nonlinear_arith)
                                requires j == jr + step, jr == off + c * step;
                            lemma_read_next(r, p, c);
                            assert(row_of(raster2, r, w) =~= row@);
                            assert(row_of(out0 + row@, done, w) =~= row@);
                        }
                    }
                }
                c = c + 1;
                done = done + 1;
                px = px + w;
                assert(j == off + c * step) by (nonlinear_arith)
                    requires j == jr + step, jr == off + (c - 1) * step;
            }
        }
        proof {
            crate::encoder::lemma_pass_len(off, step, h, c);
            assert(c == pass_len(off, step, h));
            assert forall|r: int| 0 <= r < h && row_read_before(r, p + 1, 0) implies interlaced_pos(r, h) < done by {
                assert(row_read_before(r, p, j as int));
            }
            if exact {
                let d = dec_line(v0, l0.clear_code, l0.eof_code, l0.bits_per_pixel, px as nat);
                assert forall|r: int| 0 <= r < h && row_read_before(r, p + 1, 0) implies
                    #[trigger] row_of(sp.RasterBits@, r, w) == row_of(d.1, interlaced_pos(r, h), w) by {
                    assert(row_read_before(r, p, j as int));
                }
            }
        }
        pass = pass + 1;
    }
    proof {
        lemma_pass_start(3, h);
        assert(done == h);
        assert(px == n) by (nonlinear_arith)
            requires px == done * w, done == h, n == w * h;
        if exact {
            assert forall|r: int| 0 <= r < h implies row_read_before(r, 4, 0) by {}
        }
    }
    Ok(())
}

/// The data of each sub-block at the start of `inp`, in order, up to the
/// empty one that ends them or the first one cut short.
pub open spec fn sub_block_list(inp: Seq<u8>) -> Seq<Seq<u8>>
    decreases inp.len(),
{
    if !sub_block_ok(inp) || inp[0] == 0 {
        Seq::empty()
    } else {
        seq![inp.subrange(1, 1 + inp[0] as int)] + sub_block_list(inp.skip(1 + inp[0] as int))
    }
}

/// The data of the sub-block held, length first, in the buffer `buf`: none
/// when that sub-block is empty.
pub open spec fn held_block(buf: Seq<u8>) -> Seq<Seq<u8>> {
    if buf[0] == 0 {
        Seq::empty()
    } else {
        seq![buf.subrange(1, 1 + buf[0] as int)]
    }
}

/// `blocks` are extension blocks of function code `f`, one holding each of
/// `data`, in order.
pub open spec fn blocks_of(blocks: Seq<ExtensionBlock>, f: i32, data: Seq<Seq<u8>>) -> bool {
    &&& blocks.len() == data.len()
    &&& forall|k: int| 0 <= k < data.len() ==> {
        &&& (#[trigger] blocks[k]).Function == f
        &&& blocks[k].Bytes@ == data[k]
        &&& blocks[k].ByteCount == data[k].len()
    }
}

/// Read the remaining sub-blocks of an extension into extension blocks: the
/// sub-block already held in the buffer, when it has data, becomes a block
/// of function code `ext_function`, and each following one with data a
/// continuation block, up to the empty sub-block that ends them. Fails with
/// `DReadFailed` when they are cut short (or the stream is not for reading),
/// keeping the blocks read before.
fn read_extension_blocks(gif: &mut GifFileType, ext_function: i32) -> (r: Result<(), GifError>)
    requires
        old(gif).wf(),
    ensures
        final(gif).wf(),
        final(gif).readable() == old(gif).readable(),
        final(gif).output() == old(gif).output(),
        final(gif).input().len() <= old(gif).input().len(),
        same_except_io_lzw(*final(gif), GifFileType { ExtensionBlocks: final(gif).ExtensionBlocks, ..*old(gif) }),
        final(gif).Private.lzw == (LzwState { buf: final(gif).Private.lzw.buf, ..old(gif).Private.lzw }),
        r is Ok <==> old(gif).readable() && skip_blocks_len(old(gif).input()) is Some,
        r is Err ==> r == Err::<(), GifError>(GifError::DReadFailed),
        r is Ok ==> final(gif).input() == old(gif).input().skip(skip_blocks_len(old(gif).input())->0),
        ({
            let n0 = old(gif).ExtensionBlocks@.len() as int;
            let first = held_block(old(gif).Private.lzw.buf@);
            let rest = if old(gif).readable() { sub_block_list(old(gif).input()) } else { Seq::empty() };
            let blocks = final(gif).ExtensionBlocks@;
            &&& blocks.len() == n0 + first.len() + rest.len()
            &&& blocks.take(n0) == old(gif).ExtensionBlocks@
            &&& blocks_of(blocks.subrange(n0, n0 + first.len()), ext_function, first)
            &&& blocks_of(blocks.skip(n0 + first.len()), CONTINUE_EXT_FUNC_CODE, rest)
        }),
{
    let ghost g0 = *gif;
    let ghost n0 = g0.ExtensionBlocks@.len() as int;
    let ghost first_data = held_block(g0.Private.lzw.buf@);
    let first = match buf_payload(gif.Private.lzw.buf.as_slice()) {
        Some(data) => Some(ExtensionBlock::new(ext_function, data)),
        None => None,
    };
    match first {
        Some(block) => {
            gif.ExtensionBlocks.push(block);
        },
        None => {},
    }
    let ghost b1 = gif.ExtensionBlocks@;
    let ghost n1 = n0 + first_data.len();
    proof {
        assert(b1.take(n0) =~= g0.ExtensionBlocks@);
        assert(blocks_of(b1.subrange(n0, n1), ext_function, first_data));
        assert(gif.ExtensionBlocks@.skip(n1) =~= Seq::<ExtensionBlock>::empty());
    }
    let ghost mut consumed: int = 0;
    let ghost mut done: Seq<Seq<u8>> = Seq::empty();
    loop
        invariant
            gif.wf(),
            g0 == *old(gif),
            n0 == g0.ExtensionBlocks@.len(),
            first_data == held_block(g0.Private.lzw.buf@),
            n1 == n0 + first_data.len(),
            b1.len() == n1,
            b1.take(n0) == g0.ExtensionBlocks@,
            blocks_of(b1.subrange(n0, n1), ext_function, first_data),
            gif.readable() == g0.readable(),
            gif.output() == g0.output(),
            same_except_io_lzw(*gif, GifFileType { ExtensionBlocks: gif.ExtensionBlocks, ..g0 }),
            gif.Private.lzw == (LzwState { buf: gif.Private.lzw.buf, ..g0.Private.lzw }),
            gif.ExtensionBlocks@.len() == n1 + done.len(),
            gif.ExtensionBlocks@.take(n1) == b1,
            blocks_of(gif.ExtensionBlocks@.skip(n1), CONTINUE_EXT_FUNC_CODE, done),
            !g0.readable() ==> done.len() == 0 && consumed == 0,
            0 <= consumed <= g0.input().len(),
            gif.input() == g0.input().skip(consumed),
            sub_block_list(g0.input()) == done + sub_block_list(gif.input()),
            skip_blocks_len(g0.input()) == (match skip_blocks_len(gif.input()) {
                Some(n) => Some(n + consumed),
                None => None::<int>,
            }),
        decreases gif.input().len(),
    {
        let ghost before = *gif;
        match dgif_get_extension_next(gif) {
            Ok(true) => {},
            Ok(false) => {
                proof {
                    crate::file::lemma_same_except_io_lzw_trans(*gif, before, GifFileType { ExtensionBlocks: gif.ExtensionBlocks, ..g0 });
                    let inp = before.input();
                    assert(gif.input() =~= g0.input().skip(consumed + 1));
                    assert(done + sub_block_list(inp) =~= done);
                    lemma_blocks_parts(gif.ExtensionBlocks@, g0.ExtensionBlocks@, b1, n0, n1);
                }
                return Ok(());
            },
            Err(e) => {
                proof {
                    crate::file::lemma_same_except_io_lzw_trans(*gif, before, GifFileType { ExtensionBlocks: gif.ExtensionBlocks, ..g0 });
                    if g0.readable() {
                        assert(done + sub_block_list(before.input()) =~= done);
                    }
                    lemma_blocks_parts(gif.ExtensionBlocks@, g0.ExtensionBlocks@, b1, n0, n1);
                }
                return Err(e);
            },
        }
        proof {
            crate::file::lemma_same_except_io_lzw_trans(*gif, before, GifFileType { ExtensionBlocks: gif.ExtensionBlocks, ..g0 });
        }
        let next = match buf_payload(gif.Private.lzw.buf.as_slice()) {
            Some(data) => ExtensionBlock::new(CONTINUE_EXT_FUNC_CODE, data),
            None => {
                assert(false);
                return Ok(());
            },
        };
        let ghost n_before = gif.ExtensionBlocks@;
        gif.ExtensionBlocks.push(next);
        proof {
            let inp = before.input();
            let data = inp.subrange(1, 1 + inp[0] as int);
            assert(next.Bytes@ =~= data);
            assert(gif.ExtensionBlocks@.take(n1) =~= n_before.take(n1));
            assert(gif.ExtensionBlocks@.skip(n1) =~= n_before.skip(n1).push(next));
            let d2 = done.push(data);
            assert(sub_block_list(inp) == seq![data] + sub_block_list(inp.skip(1 + inp[0] as int)));
            assert(done + sub_block_list(inp) =~= d2 + sub_block_list(gif.input()));
            consumed = consumed + 1 + inp[0];
            assert(gif.input() =~= g0.input().skip(consumed));
            done = d2;
        }
    }
}

/// The blocks after a call of `read_extension_blocks` split into the blocks
/// before it, the block from the held sub-block, and the continuation blocks.
proof fn lemma_blocks_parts(blocks: Seq<ExtensionBlock>, b0: Seq<ExtensionBlock>, b1: Seq<ExtensionBlock>, n0: int, n1: int)
    requires
        0 <= n0 <= n1 <= blocks.len(),
        b0.len() == n0,
        b1.len() == n1,
        blocks.take(n1) == b1,
        b1.take(n0) == b0,
    ensures
        blocks.take(n0) == b0,
        blocks.subrange(n0, n1) == b1.subrange(n0, n1),
{
    assert(blocks.take(n0) =~= b1.take(n0));
    assert(blocks.subrange(n0, n1) =~= b1.subrange(n0, n1));
}

/// The decompressor's view when it is set up, with code size `cs`, for the
/// image data at the start of `data`: no code read yet, an empty code table
/// whose suffix entries are `suffix`, and no pixel pending.
pub open spec fn fresh_view(data: Seq<u8>, cs: int, suffix: Seq<u8>) -> DecView {
    DecView {
        stream: sub_block_data(data),
        dword: 0,
        nbits: 0,
        rc: (pow2_bits(cs) + 2) as i32,
        rb: (cs + 1) as i32,
        max: pow2_bits(cs + 1) as i32,
        prefix: Seq::new((LZ_MAX_CODE + 1) as nat, |i: int| NO_SUCH_CODE as u32),
        suffix: suffix,
        last: NO_SUCH_CODE,
        pending: Seq::empty(),
    }
}

/// Decompressing the `n` pixels of an image with code size `cs` from the
/// image data at the start of `data`.
pub open spec fn image_decode(data: Seq<u8>, cs: int, suffix: Seq<u8>, n: int) -> (DecView, Seq<u8>, DecEnd) {
    dec_line(fresh_view(data, cs, suffix), pow2_bits(cs) as i32, (pow2_bits(cs) + 1) as i32, cs as i32, n as nat)
}

/// An image as a stream holds it: the bytes from its descriptor on, its
/// pixels in the order they are stored, and the extension blocks read
/// before it, each a function code and its data.
pub struct ImageRecord {
    pub desc: Seq<u8>,
    pub pixels: Seq<u8>,
    pub blocks: Seq<(i32, Seq<u8>)>,
}

/// The images of a stream, and the extension blocks after the last of them.
pub struct StreamRecords {
    pub images: Seq<ImageRecord>,
    pub trailing: Seq<(i32, Seq<u8>)>,
}

/// The error a failing image gives for how the decompression of its data
/// `data` ended.
pub open spec fn image_error(end: DecEnd, data: Seq<u8>) -> GifError {
    match end {
        DecEnd::EndCode => GifError::DEofTooSoon,
        DecEnd::Defect => GifError::DImageDefect,
        _ => data_end_error(data),
    }
}

/// The records `inp` starts with, up to the terminator, read with the code
/// table's suffix entries `suffix` and the extension blocks `blocks` read
/// since the last image: the images and the blocks after the last of them,
/// or the error that stops the reading with the images read
/// before it. An image takes an
/// image descriptor whose dimensions are positive and whose area fits in an
/// `i32` (else `DDataTooBig`), and its data, decompressed and ended by an
/// empty sub-block; an extension takes a function code and its sub-blocks,
/// the first one held, the others read up to an empty one.
pub open spec fn stream_records(inp: Seq<u8>, suffix: Seq<u8>, blocks: Seq<(i32, Seq<u8>)>) -> Result<StreamRecords, (GifError, Seq<ImageRecord>)>
    decreases inp.len(),
{
    if inp.len() == 0 {
        Err((GifError::DReadFailed, Seq::empty()))
    } else if inp[0] == TERMINATOR_INTRODUCER {
        Ok(StreamRecords { images: Seq::empty(), trailing: blocks })
    } else if inp[0] == DESCRIPTOR_INTRODUCER {
        let d = inp.skip(1);
        if !image_header_ok(d) {
            Err((GifError::DReadFailed, Seq::empty()))
        } else {
            let w = le16(d[4], d[5]) as int;
            let h = le16(d[6], d[7]) as int;
            if w == 0 || h == 0 || w * h > i32::MAX {
                Err((GifError::DDataTooBig, Seq::empty()))
            } else {
                let cs = d[image_desc_len(d)] as int;
                let data = d.skip(image_desc_len(d) + 1);
                let (v, out, end) = image_decode(data, cs, suffix, w * h);
                if end != DecEnd::Done {
                    Err((image_error(end, data), Seq::empty()))
                } else {
                    match skip_blocks_len(data) {
                        None => Err((GifError::DReadFailed, Seq::empty())),
                        Some(k) => {
                            proof {
                                lemma_skip_blocks_len_bound(data);
                                lemma_table_colors(d[8]);
                                assert(data.len() == d.len() - image_desc_len(d) - 1);
                            }
                            match stream_records(data.skip(k), v.suffix, Seq::empty()) {
                                Ok(rest) => Ok(StreamRecords {
                                    images: seq![ImageRecord { desc: d, pixels: out, blocks: blocks }] + rest.images,
                                    trailing: rest.trailing,
                                }),
                                Err((e, read)) => Err((e,
                                    seq![ImageRecord { desc: d, pixels: out, blocks: blocks }] + read)),
                            }
                        },
                    }
                }
            }
        }
    } else if inp[0] == EXTENSION_INTRODUCER {
        let e = inp.skip(1);
        if e.len() < 1 || !sub_block_ok(e.skip(1)) {
            Err((GifError::DReadFailed, Seq::empty()))
        } else {
            let first = e.skip(1);
            let after = first.skip(1 + first[0] as int);
            match skip_blocks_len(after) {
                None => Err((GifError::DReadFailed, Seq::empty())),
                Some(k) => {
                    proof {
                        lemma_skip_blocks_len_bound(after);
                    }
                    stream_records(after.skip(k), suffix, blocks + ext_record(e[0] as i32, first, after))
                },
            }
        }
    } else {
        Err((GifError::DWrongRecord, Seq::empty()))
    }
}

/// The extension blocks of an extension of function code `f` whose first
/// sub-block starts `first` and whose other sub-blocks start `after`.
pub open spec fn ext_record(f: i32, first: Seq<u8>, after: Seq<u8>) -> Seq<(i32, Seq<u8>)> {
    held_block(first).map_values(|x: Seq<u8>| (f, x))
        + sub_block_list(after).map_values(|x: Seq<u8>| (CONTINUE_EXT_FUNC_CODE, x))
}

/// `bs` are extension blocks holding the function codes and data `ds`.
pub open spec fn blocks_hold(bs: Seq<ExtensionBlock>, ds: Seq<(i32, Seq<u8>)>) -> bool {
    &&& bs.len() == ds.len()
    &&& forall|k: int| 0 <= k < ds.len() ==> {
        &&& (#[trigger] bs[k]).Function == ds[k].0
        &&& bs[k].Bytes@ == ds[k].1
        &&& bs[k].ByteCount == ds[k].1.len()
    }
}

/// `im` is the image `rec` read: its descriptor, its raster (the rows put
/// in their interlaced places when the image is interlaced), and the
/// extension blocks before it.
pub open spec fn image_holds(im: SavedImage, rec: ImageRecord) -> bool {
    let w = im.ImageDesc.Width as int;
    let h = im.ImageDesc.Height as int;
    &&& image_fields(im.ImageDesc, rec.desc)
    &&& im.RasterBits@.len() == w * h
    &&& im.ImageDesc.Interlace ==> forall|r: int| 0 <= r < h ==>
        #[trigger] row_of(im.RasterBits@, r, w) == row_of(rec.pixels, interlaced_pos(r, h), w)
    &&& !im.ImageDesc.Interlace ==> im.RasterBits@ == rec.pixels
    &&& blocks_hold(im.ExtensionBlocks@, rec.blocks)
}

/// The records `res` with the images `imgs` read before them.
pub open spec fn after_images(imgs: Seq<ImageRecord>, res: Result<StreamRecords, (GifError, Seq<ImageRecord>)>) -> Result<StreamRecords, (GifError, Seq<ImageRecord>)> {
    match res {
        Ok(rest) => Ok(StreamRecords { images: imgs + rest.images, trailing: rest.trailing }),
        Err((e, read)) => Err((e, imgs + read)),
    }
}

/// The decompressor as an image header leaves it is set up for the image
/// data that follows, with the code table's suffix entries left as they were.
proof fn lemma_fresh_view(g0: GifFileType, g: GifFileType, d: Seq<u8>)
    requires
        image_header_read(g0, g, d),
        g0.Private.lzw.buf@.len() == 256,
    ensures
        ({
            let cs = d[image_desc_len(d)] as int;
            let l = g.Private.lzw;
            &&& dec_view(g) == fresh_view(g.input(), cs, g0.Private.lzw.suffix@)
            &&& l.clear_code == pow2_bits(cs) as i32
            &&& l.eof_code == (pow2_bits(cs) + 1) as i32
            &&& l.bits_per_pixel == cs as i32
            &&& cursor_form(l.buf@)
            &&& l.stack_ptr == 0
        }),
{
    let l = g.Private.lzw;
    let cs = d[image_desc_len(d)] as int;
    assert(crate::decoder_lzw::decoder_reset(g0.Private.lzw, l, cs));
    assert(cursor_form(l.buf@));
    assert(l.buf@ == g0.Private.lzw.buf@.update(0, 0));
    assert(l.buf@[0] == 0);
    assert(crate::decoder_lzw::pending_bytes(l.buf@) =~= Seq::<u8>::empty());
    assert(crate::decoder_lzw::code_stream(g) =~= sub_block_data(g.input()));
    assert(crate::decoder_lzw::stack_pixels(l.stack@, 0) =~= Seq::<u8>::empty());
}

/// The blocks of an extension, appended to `old_blocks`, hold the blocks
/// `pend` held, then the extension's.
proof fn lemma_ext_blocks_hold(
    blocks: Seq<ExtensionBlock>,
    old_blocks: Seq<ExtensionBlock>,
    pend: Seq<(i32, Seq<u8>)>,
    f: i32,
    first: Seq<Seq<u8>>,
    rest: Seq<Seq<u8>>,
)
    requires
        blocks_hold(old_blocks, pend),
        blocks.len() == old_blocks.len() + first.len() + rest.len(),
        blocks.take(old_blocks.len() as int) == old_blocks,
        blocks_of(blocks.subrange(old_blocks.len() as int, (old_blocks.len() + first.len()) as int), f, first),
        blocks_of(blocks.skip((old_blocks.len() + first.len()) as int), CONTINUE_EXT_FUNC_CODE, rest),
    ensures
        blocks_hold(blocks, pend + (first.map_values(|x: Seq<u8>| (f, x))
            + rest.map_values(|x: Seq<u8>| (CONTINUE_EXT_FUNC_CODE, x)))),
{
    let n0 = old_blocks.len() as int;
    let n1 = n0 + first.len();
    let ds = pend + (first.map_values(|x: Seq<u8>| (f, x)) + rest.map_values(|x: Seq<u8>| (CONTINUE_EXT_FUNC_CODE, x)));
    assert forall|k: int| 0 <= k < ds.len() implies {
        &&& (#[trigger] blocks[k]).Function == ds[k].0
        &&& blocks[k].Bytes@ == ds[k].1
        &&& blocks[k].ByteCount == ds[k].1.len()
    } by {
        if k < n0 {
            assert(blocks[k] == blocks.take(n0)[k]);
        } else if k < n1 {
            assert(blocks[k] == blocks.subrange(n0, n1)[k - n0]);
        } else {
            assert(blocks[k] == blocks.skip(n1)[k - n1]);
        }
    }
}

/// Read an image record, its introducer already read: the image header,
/// then the pixels, put in their interlaced places when the image is
/// interlaced. Gives back the image, without extension blocks, as
/// `stream_records` describes it.
#[verifier::rlimit(60)]
fn read_image(gif: &mut GifFileType) -> (r: Result<SavedImage, GifError>)
    requires
        old(gif).wf(),
        old(gif).readable(),
    ensures
        final(gif).wf(),
        final(gif).readable(),
        final(gif).output() == old(gif).output(),
        final(gif).input().len() <= old(gif).input().len(),
        same_screen(*final(gif), *old(gif)),
        final(gif).SavedImages == old(gif).SavedImages,
        final(gif).ExtensionBlocks == old(gif).ExtensionBlocks,
        ({
            let d = old(gif).input();
            &&& !image_header_ok(d) ==> r == Err::<SavedImage, GifError>(GifError::DReadFailed)
            &&& image_header_ok(d) ==> {
                let w = le16(d[4], d[5]) as int;
                let h = le16(d[6], d[7]) as int;
                &&& (w == 0 || h == 0 || w * h > i32::MAX) ==> r == Err::<SavedImage, GifError>(GifError::DDataTooBig)
                &&& !(w == 0 || h == 0 || w * h > i32::MAX) ==> {
                    let cs = d[image_desc_len(d)] as int;
                    let data = d.skip(image_desc_len(d) + 1);
                    let (v, out, end) = image_decode(data, cs, old(gif).Private.lzw.suffix@, w * h);
                    &&& end != DecEnd::Done ==> r == Err::<SavedImage, GifError>(image_error(end, data))
                    &&& end == DecEnd::Done && skip_blocks_len(data) is None ==> r == Err::<SavedImage, GifError>(GifError::DReadFailed)
                    &&& end == DecEnd::Done && skip_blocks_len(data) is Some ==> {
                        &&& r is Ok
                        &&& final(gif).Private.lzw.suffix@ == v.suffix
                        &&& final(gif).input() == data.skip(skip_blocks_len(data)->0)
                    }
                    &&& r matches Ok(im) ==> image_holds(im, ImageRecord { desc: d, pixels: out, blocks: Seq::empty() })
                        && decoded_image(im)
                }
            }
        }),
{
    let ghost g0 = *gif;
    let ghost d = g0.input();
    match dgif_get_image_header(gif) {
        Ok(()) => {},
        Err(e) => return Err(e),
    }
    let ghost gh = *gif;
    let mut sp = SavedImage::new(gif.Image.duplicate());
    let width = sp.ImageDesc.Width;
    let height = sp.ImageDesc.Height;
    proof {
        lemma_le16_range(d[4], d[5]);
        lemma_le16_range(d[6], d[7]);
        lemma_fresh_view(g0, gh, d);
    }
    if width <= 0 || height <= 0 || width > i32::MAX / height {
        proof {
            if width > 0 && height > 0 {
                assert(width * height > i32::MAX) by (nonlinear_arith)
                    requires
                        0 < width,
                        0 < height,
                        width > i32::MAX / height,
                ;
            }
        }
        return Err(GifError::DDataTooBig);
    }
    proof {
        assert(width * height <= i32::MAX) by (nonlinear_arith)
            requires
                0 < width,
                0 < height,
                width <= i32::MAX / height,
        ;
    }
    let image_size = (width as usize) * (height as usize);
    if image_size > 2147483648usize {
        return Err(GifError::DDataTooBig);
    }
    sp.RasterBits = crate::file::filled_u8(image_size, 0);
    if sp.ImageDesc.Interlace {
        match read_interlaced(gif, &mut sp) {
            Ok(()) => {},
            Err(e) => return Err(e),
        }
    } else {
        match dgif_get_line(gif, sp.RasterBits.as_mut_slice()) {
            Ok(()) => {},
            Err(e) => return Err(e),
        }
    }
    Ok(sp)
}

/// Read the whole stream into core: every image with its pixels and the
/// extension blocks before it, and the extension blocks after the last
/// image, up to the terminator, as `stream_records` describes them; the
/// extension blocks the handle held before are dropped. Fails with
/// `DNoImageDesc` when neither the stream nor the handle holds an image.
#[verifier::rlimit(80)]
pub fn dgif_slurp(gif: &mut GifFileType) -> (r: Result<(), GifError>)
    requires
        old(gif).wf(),
    ensures
        final(gif).wf(),
        final(gif).readable() == old(gif).readable(),
        final(gif).output() == old(gif).output(),
        final(gif).input().len() <= old(gif).input().len(),
        same_screen(*final(gif), *old(gif)),
        !old(gif).readable() ==> r == Err::<(), GifError>(GifError::DNotReadable),
        r is Ok ==> {
            let n0 = old(gif).SavedImages@.len();
            &&& final(gif).SavedImages@.len() >= 1
            &&& final(gif).SavedImages@.len() >= n0
            &&& final(gif).SavedImages@.take(n0 as int) == old(gif).SavedImages@
            &&& forall|k: int| n0 <= k < final(gif).SavedImages@.len() ==> decoded_image(#[trigger] final(gif).SavedImages@[k])
        },
        old(gif).readable() ==> match stream_records(old(gif).input(), old(gif).Private.lzw.suffix@, Seq::empty()) {
            Err((e, read)) => {
                let n0 = old(gif).SavedImages@.len();
                &&& r == Err::<(), GifError>(e)
                &&& final(gif).SavedImages@.len() == n0 + read.len()
                &&& final(gif).SavedImages@.take(n0 as int) == old(gif).SavedImages@
                &&& forall|k: int| 0 <= k < read.len() ==>
                    image_holds(final(gif).SavedImages@[n0 + k], #[trigger] read[k])
            },
            Ok(rec) => {
                let n0 = old(gif).SavedImages@.len();
                let n = n0 + rec.images.len();
                &&& (r is Ok <==> n > 0)
                &&& n == 0 ==> r == Err::<(), GifError>(GifError::DNoImageDesc)
                &&& final(gif).SavedImages@.len() == n
                &&& final(gif).SavedImages@.take(n0 as int) == old(gif).SavedImages@
                &&& forall|k: int| 0 <= k < rec.images.len() ==>
                    image_holds(final(gif).SavedImages@[n0 + k], #[trigger] rec.images[k])
                &&& blocks_hold(final(gif).ExtensionBlocks@, rec.trailing)
            },
        },
{
    let ghost g0 = *gif;
    let ghost n0 = g0.SavedImages@.len() as int;
    let ghost suffix0 = g0.Private.lzw.suffix@;
    let ghost mut imgs: Seq<ImageRecord> = Seq::empty();
    let ghost mut pend: Seq<(i32, Seq<u8>)> = Seq::empty();
    gif.ExtensionBlocks = Vec::new();
    proof {
        let x = stream_records(g0.input(), suffix0, Seq::empty());
        match x {
            Ok(rest) => {
                assert(imgs + rest.images =~= rest.images);
            },
            Err((e, read)) => {
                assert(imgs + read =~= read);
            },
        }
    }
    loop
        invariant_except_break
            g0.readable() ==> stream_records(g0.input(), suffix0, Seq::empty())
                == after_images(imgs, stream_records(gif.input(), gif.Private.lzw.suffix@, pend)),
        invariant
            gif.wf(),
            g0 == *old(gif),
            n0 == g0.SavedImages@.len(),
            suffix0 == g0.Private.lzw.suffix@,
            gif.readable() == g0.readable(),
            gif.output() == g0.output(),
            gif.input().len() <= g0.input().len(),
            same_screen(*gif, g0),
            gif.SavedImages@.len() == n0 + imgs.len(),
            gif.SavedImages@.take(n0) == g0.SavedImages@,
            forall|k: int| n0 <= k < gif.SavedImages@.len() ==> decoded_image(#[trigger] gif.SavedImages@[k]),
            forall|k: int| 0 <= k < imgs.len() ==> image_holds(gif.SavedImages@[n0 + k], #[trigger] imgs[k]),
            blocks_hold(gif.ExtensionBlocks@, pend),
        ensures
            gif.wf(),
            gif.readable(),
            gif.readable() == g0.readable(),
            gif.output() == g0.output(),
            gif.input().len() <= g0.input().len(),
            same_screen(*gif, g0),
            gif.SavedImages@.len() == n0 + imgs.len(),
            gif.SavedImages@.take(n0) == g0.SavedImages@,
            forall|k: int| n0 <= k < gif.SavedImages@.len() ==> decoded_image(#[trigger] gif.SavedImages@[k]),
            forall|k: int| 0 <= k < imgs.len() ==> image_holds(gif.SavedImages@[n0 + k], #[trigger] imgs[k]),
            blocks_hold(gif.ExtensionBlocks@, pend),
            stream_records(g0.input(), suffix0, Seq::empty()) == Ok::<StreamRecords, (GifError, Seq<ImageRecord>)>(
                StreamRecords { images: imgs, trailing: pend }),
        decreases gif.input().len(),
    {
        let ghost before = *gif;
        let ghost bi = before.input();
        proof {
            assert(imgs + Seq::<ImageRecord>::empty() =~= imgs);
        }
        let record_type = match dgif_get_record_type(gif) {
            Ok(t) => t,
            Err(e) => return Err(e),
        };
        match record_type {
            GifRecordType::IMAGE_DESC_RECORD_TYPE => {
                let ghost at_image = *gif;
                let mut sp = match read_image(gif) {
                    Ok(im) => im,
                    Err(e) => return Err(e),
                };
                let ghost d = at_image.input();
                let ghost rec = ImageRecord { desc: d, pixels: image_decode(
                    d.skip(image_desc_len(d) + 1), d[image_desc_len(d)] as int, at_image.Private.lzw.suffix@,
                    le16(d[4], d[5]) as int * le16(d[6], d[7]) as int).1, blocks: pend };
                // The extension blocks read so far belong to this image.
                std::mem::swap(&mut gif.ExtensionBlocks, &mut sp.ExtensionBlocks);
                let ghost imgs0 = gif.SavedImages@;
                gif.SavedImages.push(sp);
                proof {
                    assert(gif.SavedImages@.take(n0) =~= imgs0.take(n0));
                    assert(gif.SavedImages@[n0 + imgs.len()] == sp);
                    assert(image_holds(sp, rec));
                    let x = stream_records(gif.input(), gif.Private.lzw.suffix@, Seq::empty());
                    let imgs2 = imgs.push(rec);
                    match x {
                        Ok(rest) => {
                            assert(imgs + (seq![rec] + rest.images) =~= imgs2 + rest.images);
                        },
                        Err((e, read)) => {
                            assert(imgs + (seq![rec] + read) =~= imgs2 + read);
                        },
                    }
                    assert forall|k: int| 0 <= k < imgs2.len() implies image_holds(gif.SavedImages@[n0 + k], #[trigger] imgs2[k]) by {
                        if k < imgs.len() {
                            assert(imgs2[k] == imgs[k]);
                            assert(gif.SavedImages@[n0 + k] == imgs0[n0 + k]);
                        }
                    }
                    imgs = imgs2;
                    pend = Seq::empty();
                }
            },
            GifRecordType::EXTENSION_RECORD_TYPE => {
                let ghost at_ext = *gif;
                let mut ext_function: i32 = 0;
                match dgif_get_extension(gif, &mut ext_function) {
                    Ok(_) => {},
                    Err(e) => return Err(e),
                }
                let ghost at_blocks = *gif;
                let ghost e = at_ext.input();
                let ghost first = e.skip(1);
                let ghost after = at_blocks.input();
                proof {
                    let b = at_blocks.Private.lzw.buf@;
                    if first[0] != 0 {
                        assert(b.subrange(1, 1 + b[0] as int) =~= first.subrange(1, 1 + first[0] as int));
                    }
                    assert(held_block(b) =~= held_block(first));
                }
                match read_extension_blocks(gif, ext_function) {
                    Ok(()) => {},
                    Err(e) => return Err(e),
                }
                proof {
                    lemma_ext_blocks_hold(gif.ExtensionBlocks@, at_blocks.ExtensionBlocks@, pend, ext_function,
                        held_block(first), sub_block_list(after));
                    pend = pend + ext_record(e[0] as i32, first, after);
                }
            },
            GifRecordType::TERMINATE_RECORD_TYPE => {
                proof {
                    assert(imgs + Seq::<ImageRecord>::empty() =~= imgs);
                }
                break;
            },
            _ => {
                assert(false);
            },
        }
    }
    if gif.SavedImages.len() == 0 {
        return Err(GifError::DNoImageDesc);
    }
    Ok(())
}

} // verus!

//! GIF encoding: the signature and screen descriptor, image descriptors,
//! pixel lines, extension blocks, raw code blocks, and writing a whole
//! in-core GIF.
use vstd::prelude::*;
use crate::colormap::{ColorMapObject, GifColorType};
use crate::constants::{
    APPLICATION_EXT_FUNC_CODE, COMMENT_EXT_FUNC_CODE, CONTINUE_EXT_FUNC_CODE, DESCRIPTOR_INTRODUCER,
    EXTENSION_INTRODUCER, FIRST_CODE, GRAPHICS_EXT_FUNC_CODE, PLAINTEXT_EXT_FUNC_CODE,
    TERMINATOR_INTRODUCER,
};
use crate::decoder::{
    first_graphics_block, gif87_stamp, gif89_stamp, is_writable, lemma_first_graphics_block,
    lemma_no_graphics_block,
};
use crate::gcb::{GraphicsControlBlock, egif_gcb_to_extension, gcb_bytes};
use crate::decoder_lzw::{pow2_bits, lemma_pow2_bits_bound, lemma_pow2_bits_mono};
use crate::encoder_lzw::{
    coding_bpp, code_size, compress_line_view, compressing, egif_compress_line, egif_setup_compress,
    enc_view, fresh_packer, get_code_mask, pack_view, put_code, EncView,
    lemma_compress_concat, starts_with, lemma_starts_with_trans, lemma_put_code_out, lemma_compress_line_out,
};
use crate::err::GifError;
use crate::file::{GifFilePrivateType, GifFileType, IoState, LzwState, io_wf, same_except_io, same_except_io_lzw};
use crate::types::{ExtensionBlock, SavedImage};

verus! {

/// A 16-bit word, low byte first.
pub open spec fn word_bytes(w: i32) -> Seq<u8> {
    seq![(w & 0xff) as u8, ((w >> 8u32) & 0xff) as u8]
}

/// The red, green and blue bytes of a color.
pub open spec fn rgb_bytes(c: GifColorType) -> Seq<u8> {
    seq![c.Red, c.Green, c.Blue]
}

/// The bytes of a color table.
pub open spec fn color_table_bytes(colors: Seq<GifColorType>) -> Seq<u8>
    decreases colors.len(),
{
    if colors.len() == 0 {
        Seq::empty()
    } else {
        color_table_bytes(colors.drop_last()) + rgb_bytes(colors.last())
    }
}

/// The bytes of a color map's table: its first `ColorCount` colors.
pub open spec fn map_table_bytes(m: Option<ColorMapObject>) -> Seq<u8> {
    match m {
        Some(c) => color_table_bytes(c.Colors@.take(c.ColorCount as int)),
        None => Seq::empty(),
    }
}

/// A borrowed optional color map, as a value.
pub open spec fn opt_map(m: Option<&ColorMapObject>) -> Option<ColorMapObject> {
    match m {
        Some(c) => Some(*c),
        None => None,
    }
}

/// Two optional color maps with the same contents.
pub open spec fn same_map(a: Option<ColorMapObject>, b: Option<ColorMapObject>) -> bool {
    &&& a is Some <==> b is Some
    &&& a is Some ==> {
        &&& a->0.ColorCount == b->0.ColorCount
        &&& a->0.BitsPerPixel == b->0.BitsPerPixel
        &&& a->0.SortFlag == b->0.SortFlag
        &&& a->0.Colors@ == b->0.Colors@
    }
}

/// A color map that can be written out: a table of at least `ColorCount`
/// colors and a bit size whose predecessor is a number.
pub open spec fn writable_map(m: Option<ColorMapObject>) -> bool {
    m matches Some(c) ==> 0 <= c.ColorCount <= c.Colors@.len() && c.BitsPerPixel > i32::MIN
}

/// The signature for a version.
pub open spec fn version_stamp(gif89: bool) -> Seq<u8> {
    if gif89 { gif89_stamp() } else { gif87_stamp() }
}

/// Extension kinds that only GIF89 knows.
pub open spec fn ext_needs_gif89(f: i32) -> bool {
    f == COMMENT_EXT_FUNC_CODE || f == GRAPHICS_EXT_FUNC_CODE || f == PLAINTEXT_EXT_FUNC_CODE
        || f == APPLICATION_EXT_FUNC_CODE
}

pub open spec fn blocks_need_gif89(bs: Seq<ExtensionBlock>) -> bool {
    exists|j: int| 0 <= j < bs.len() && #[trigger] ext_needs_gif89(bs[j].Function)
}

/// The output must be GIF89: it was asked for, or an extension of an image
/// or of the screen is of a GIF89 kind.
pub open spec fn needs_gif89(g: GifFileType) -> bool {
    ||| g.Private.gif89
    ||| exists|i: int| 0 <= i < g.SavedImages@.len() && #[trigger] blocks_need_gif89(g.SavedImages@[i].ExtensionBlocks@)
    ||| blocks_need_gif89(g.ExtensionBlocks@)
}

/// `g` with its GIF89 flag set to `b`.
pub open spec fn with_gif89(g: GifFileType, b: bool) -> GifFileType {
    GifFileType { Private: GifFilePrivateType { gif89: b, ..g.Private }, ..g }
}

/// Write a 16-bit word, low byte first.
fn egif_put_word(gif: &mut GifFileType, word: i32) -> (r: Result<(), GifError>)
    requires
        io_wf(old(gif).Private.io),
    ensures
        io_wf(final(gif).Private.io),
        old(gif).wf() ==> final(gif).wf(),
        same_except_io(*final(gif), *old(gif)),
        final(gif).input() == old(gif).input(),
        final(gif).writable() == old(gif).writable(),
        final(gif).readable() == old(gif).readable(),
        r is Ok <==> old(gif).writable(),
        r is Ok ==> final(gif).output() == old(gif).output() + word_bytes(word),
        r is Err ==> r == Err::<(), GifError>(GifError::EWriteFailed) && final(gif).output() == old(gif).output(),
{
    assert(0 <= (word & 0xff) <= 255) by (bit_vector);
    assert(0 <= ((word >> 8u32) & 0xff) <= 255) by (bit_vector);
    let c: [u8; 2] = [(word & 0xff) as u8, ((word >> 8u32) & 0xff) as u8];
    let n = gif.write(&c);
    if n == 2 {
        assert(c@.take(2) =~= word_bytes(word));
        Ok(())
    } else {
        assert(c@.take(0) =~= Seq::<u8>::empty());
        assert(gif.output() =~= old(gif).output());
        Err(GifError::EWriteFailed)
    }
}

/// Write the first `ColorCount` colors of a map.
fn put_color_table(gif: &mut GifFileType, cm: &ColorMapObject) -> (r: Result<(), GifError>)
    requires
        io_wf(old(gif).Private.io),
        old(gif).writable(),
        0 <= cm.ColorCount <= cm.Colors@.len(),
    ensures
        io_wf(final(gif).Private.io),
        old(gif).wf() ==> final(gif).wf(),
        same_except_io(*final(gif), *old(gif)),
        final(gif).input() == old(gif).input(),
        final(gif).writable(),
        r is Ok,
        final(gif).output() == old(gif).output() + map_table_bytes(Some(*cm)),
{
    let n = cm.ColorCount as usize;
    let colors = cm.colors();
    let mut i: usize = 0;
    assert(colors@.take(0) =~= Seq::<GifColorType>::empty());
    assert(old(gif).output() + Seq::<u8>::empty() =~= old(gif).output());
    while i < n
        invariant
            n == cm.ColorCount,
            n <= colors@.len(),
            colors@ == cm.Colors@,
            i <= n,
            io_wf(gif.Private.io),
            old(gif).wf() ==> gif.wf(),
            same_except_io(*gif, *old(gif)),
            gif.input() == old(gif).input(),
            gif.writable(),
            gif.output() == old(gif).output() + color_table_bytes(colors@.take(i as int)),
        decreases n - i,
    {
        let c = colors[i];
        let rgb: [u8; 3] = [c.Red, c.Green, c.Blue];
        let ghost before = *gif;
        match gif.write_exact(&rgb) {
            Ok(()) => {},
            Err(e) => return Err(e),
        }
        i = i + 1;
        proof {
            let t = colors@.take(i as int);
            assert(t.drop_last() =~= colors@.take(i - 1));
            assert(rgb@ =~= rgb_bytes(t.last()));
            assert(gif.output() =~= old(gif).output() + color_table_bytes(t));
            crate::file::lemma_same_except_io_trans(*gif, before, *old(gif));
        }
    }
    Ok(())
}

/// A handle for writing a GIF; its output starts empty.
pub fn egif_open() -> (r: GifFileType)
    ensures
        r.wf(),
        r.writable(),
        r.output() == Seq::<u8>::empty(),
        r.SWidth == 0 && r.SHeight == 0 && r.SColorResolution == 0 && r.SBackGroundColor == 0,
        r.AspectByte == 0,
        r.SColorMap is None,
        r.Image.Width == 0 && r.Image.Height == 0 && r.Image.ColorMap is None,
        r.SavedImages@.len() == 0,
        r.ExtensionBlocks@.len() == 0,
        r.Private.pixel_count == 0,
        !r.Private.gif89 && !r.Private.screen_desc_written && !r.Private.in_image,
{
    let io = IoState::Write { out: Vec::new() };
    let private = GifFilePrivateType::new(io);
    let gif = GifFileType::new(private);
    proof {
        crate::encoder_lzw::lemma_shr_zero(0);
        lemma_pow2_bits_bound(0);
        assert(gif.output() =~= Seq::<u8>::empty());
    }
    gif
}

/// Whether any of `bs` is of a GIF89 kind.
fn blocks_need89(bs: &[ExtensionBlock]) -> (r: bool)
    ensures
        r == blocks_need_gif89(bs@),
{
    let mut j: usize = 0;
    while j < bs.len()
        invariant
            j <= bs@.len(),
            forall|q: int| 0 <= q < j ==> !#[trigger] ext_needs_gif89(bs@[q].Function),
        decreases bs@.len() - j,
    {
        let f = bs[j].Function;
        if f == COMMENT_EXT_FUNC_CODE || f == GRAPHICS_EXT_FUNC_CODE || f == PLAINTEXT_EXT_FUNC_CODE
            || f == APPLICATION_EXT_FUNC_CODE {
            assert(ext_needs_gif89(bs@[j as int].Function));
            return true;
        }
        j = j + 1;
    }
    false
}

/// Decide the version that will be written, GIF89 when `needs_gif89` says
/// so and GIF87 otherwise, and record it in the handle.
pub fn egif_get_gif_version(gif: &mut GifFileType) -> (r: &'static str)
    ensures
        *final(gif) == with_gif89(*old(gif), needs_gif89(*old(gif))),
        r@ == (if needs_gif89(*old(gif)) { "GIF89a"@ } else { "GIF87a"@ }),
{
    let mut needs = gif.Private.gif89;
    if !needs {
        let images = gif.saved_images();
        let mut i: usize = 0;
        while i < images.len() && !needs
            invariant
                images@ == gif.SavedImages@,
                i <= images@.len(),
                !gif.Private.gif89,
                needs ==> i >= 1 && blocks_need_gif89(images@[i - 1].ExtensionBlocks@),
                !needs ==> forall|q: int| 0 <= q < i ==> !#[trigger] blocks_need_gif89(images@[q].ExtensionBlocks@),
            decreases images@.len() - i,
        {
            needs = blocks_need89(images[i].extension_blocks());
            i = i + 1;
        }
    }
    if !needs {
        needs = blocks_need89(gif.extension_blocks());
    }
    gif.Private.gif89 = needs;
    if gif.Private.gif89 {
        "GIF89a"
    } else {
        "GIF87a"
    }
}

/// Choose the version to write: GIF89 or GIF87.
pub fn egif_set_gif_version(gif: &mut GifFileType, gif89: bool)
    ensures
        *final(gif) == with_gif89(*old(gif), gif89),
{
    gif.Private.gif89 = gif89;
}

/// The packed-fields byte of a screen descriptor: a global table flag, the
/// color resolution, the table's size and its sort flag.
pub open spec fn screen_packed(color_res: i32, map: Option<ColorMapObject>) -> u8 {
    let base: u8 = if map is Some { 0x80u8 } else { 0u8 };
    let res: u8 = ((((color_res - 1) as i32) & 0x07i32) << 4u32) as u8;
    let size: u8 = match map {
        Some(m) => (m.BitsPerPixel - 1) as u8,
        None => 0x07u8,
    };
    let sort: u8 = match map {
        Some(m) => if m.SortFlag { 0x08u8 } else { 0u8 },
        None => 0u8,
    };
    base | res | size | sort
}

/// The logical screen descriptor and its global color table.
pub open spec fn screen_desc_bytes(
    width: i32,
    height: i32,
    color_res: i32,
    background: i32,
    aspect: u8,
    map: Option<ColorMapObject>,
) -> Seq<u8> {
    word_bytes(width) + word_bytes(height) + seq![screen_packed(color_res, map), background as u8, aspect]
        + map_table_bytes(map)
}

/// Write the signature and the logical screen descriptor, with the global
/// color map when one is given. A second screen descriptor gives
/// `EHasScreenDesc`, and a handle not opened for writing `ENotWriteable`.
pub fn egif_put_screen_desc(
    gif: &mut GifFileType,
    width: i32,
    height: i32,
    color_res: i32,
    background: i32,
    color_map: Option<&ColorMapObject>,
) -> (r: Result<(), GifError>)
    requires
        old(gif).wf(),
        !old(gif).Private.screen_desc_written && old(gif).writable() ==> color_res > i32::MIN
            && writable_map(opt_map(color_map)),
    ensures
        final(gif).wf(),
        final(gif).writable() == old(gif).writable(),
        final(gif).input() == old(gif).input(),
        old(gif).Private.screen_desc_written ==> r == Err::<(), GifError>(GifError::EHasScreenDesc)
            && *final(gif) == *old(gif),
        !old(gif).Private.screen_desc_written && !old(gif).writable() ==> r == Err::<(), GifError>(
            GifError::ENotWriteable) && *final(gif) == *old(gif),
        !old(gif).Private.screen_desc_written && old(gif).writable() ==> r is Ok && ({
            let n89 = needs_gif89(*old(gif));
            &&& final(gif).output() == old(gif).output() + version_stamp(n89) + screen_desc_bytes(
                width,
                height,
                color_res,
                background,
                old(gif).AspectByte,
                opt_map(color_map),
            )
            &&& same_map(final(gif).SColorMap, opt_map(color_map))
            &&& *final(gif) == (GifFileType {
                SWidth: width,
                SHeight: height,
                SColorResolution: color_res,
                SBackGroundColor: background,
                SColorMap: final(gif).SColorMap,
                Private: GifFilePrivateType {
                    gif89: n89,
                    screen_desc_written: true,
                    io: final(gif).Private.io,
                    ..old(gif).Private
                },
                ..*old(gif)
            })
        }),
{
    if gif.Private.screen_desc_written {
        return Err(GifError::EHasScreenDesc);
    }
    if !is_writable(gif) {
        return Err(GifError::ENotWriteable);
    }
    let ghost g0 = *gif;
    let _version = egif_get_gif_version(gif);
    let stamp: [u8; 6] = if gif.Private.gif89 {
        [0x47, 0x49, 0x46, 0x38, 0x39, 0x61]
    } else {
        [0x47, 0x49, 0x46, 0x38, 0x37, 0x61]
    };
    assert(stamp@ =~= version_stamp(gif.Private.gif89));
    if let Err(e) = gif.write_exact(&stamp) {
        return Err(e);
    }
    gif.SWidth = width;
    gif.SHeight = height;
    gif.SColorResolution = color_res;
    gif.SBackGroundColor = background;
    gif.SColorMap = match color_map {
        Some(cm) => Some(cm.duplicate()),
        None => None,
    };
    let ghost g1 = *gif;
    if let Err(e) = egif_put_word(gif, width) {
        return Err(e);
    }
    if let Err(e) = egif_put_word(gif, height) {
        return Err(e);
    }
    let mut packed: u8 = if color_map.is_some() { 0x80 } else { 0x00 };
    packed = packed | ((((color_res - 1) & 0x07) << 4u32) as u8);
    packed = packed | match color_map {
        Some(cm) => (cm.BitsPerPixel - 1) as u8,
        None => 0x07,
    };
    if let Some(cm) = color_map {
        if cm.SortFlag {
            packed = packed | 0x08;
        }
    }
    proof {
        let m = opt_map(color_map);
        let base: u8 = if m is Some { 0x80u8 } else { 0u8 };
        let res: u8 = ((((color_res - 1) as i32) & 0x07i32) << 4u32) as u8;
        let size: u8 = match m {
            Some(c) => (c.BitsPerPixel - 1) as u8,
            None => 0x07u8,
        };
        let sort: u8 = match m {
            Some(c) => if c.SortFlag { 0x08u8 } else { 0u8 },
            None => 0u8,
        };
        assert(packed == base | res | size | sort) by {
            if m is Some && m->0.SortFlag {
                assert(packed == ((base | res) | size) | 0x08u8);
            } else {
                assert(((base | res) | size) | 0u8 == (base | res) | size) by (bit_vector);
            }
        }
    }
    let buf: [u8; 3] = [packed, background as u8, gif.AspectByte];
    if let Err(e) = gif.write_exact(&buf) {
        return Err(e);
    }
    let ghost g2 = *gif;
    if let Some(cm) = color_map {
        if let Err(e) = put_color_table(gif, cm) {
            return Err(e);
        }
    }
    proof {
        crate::file::lemma_same_except_io_trans(*gif, g2, g1);
        assert(gif.output() =~= g0.output() + version_stamp(needs_gif89(g0)) + screen_desc_bytes(
            width,
            height,
            color_res,
            background,
            g0.AspectByte,
            opt_map(color_map),
        ));
    }
    gif.Private.screen_desc_written = true;
    Ok(())
}

/// The packed-fields byte of an image descriptor: a local table flag, the
/// interlace flag and the table's size.
pub open spec fn image_packed(interlace: bool, map: Option<ColorMapObject>) -> u8 {
    (if map is Some { 0x80u8 } else { 0u8 }) | (if interlace { 0x40u8 } else { 0u8 }) | (match map {
        Some(m) => (m.BitsPerPixel - 1) as u8,
        None => 0u8,
    })
}

/// An image descriptor and its local color table.
pub open spec fn image_desc_bytes(
    left: i32,
    top: i32,
    width: i32,
    height: i32,
    interlace: bool,
    map: Option<ColorMapObject>,
) -> Seq<u8> {
    seq![DESCRIPTOR_INTRODUCER] + word_bytes(left) + word_bytes(top) + word_bytes(width) + word_bytes(height)
        + seq![image_packed(interlace, map)] + map_table_bytes(map)
}

/// The pixel count of an image, the dimensions taken as machine words.
pub open spec fn pixels_of(width: i32, height: i32) -> int {
    (width as usize) as int * (height as usize) as int
}

/// Write an image descriptor, with the local color map when one is given,
/// and start compressing the image. An image still owing many pixels gives
/// `EHasImageDesc`; a handle not opened for writing `ENotWriteable`; an
/// image with neither a local nor a global color map `ENoColorMap`, and one
/// whose pixel count does not fit in a machine word `EDataTooBig`, each
/// after the descriptor was written.
#[verifier::spinoff_prover]
#[verifier::rlimit(40)]
pub fn egif_put_image_desc(
    gif: &mut GifFileType,
    left: i32,
    top: i32,
    width: i32,
    height: i32,
    interlace: bool,
    color_map: Option<&ColorMapObject>,
) -> (r: Result<(), GifError>)
    requires
        old(gif).wf(),
        !(old(gif).Private.in_image && old(gif).Private.pixel_count > 0xffff0000) && old(gif).writable() ==> {
            &&& writable_map(opt_map(color_map))
            &&& color_map matches Some(m) ==> m.BitsPerPixel <= 9
            &&& color_map is None ==> (old(gif).SColorMap matches Some(m) ==> m.BitsPerPixel <= 9)
        },
    ensures
        final(gif).wf(),
        final(gif).writable() == old(gif).writable(),
        final(gif).input() == old(gif).input(),
        old(gif).Private.in_image && old(gif).Private.pixel_count > 0xffff0000 ==> r == Err::<(), GifError>(
            GifError::EHasImageDesc) && *final(gif) == *old(gif),
        !(old(gif).Private.in_image && old(gif).Private.pixel_count > 0xffff0000) && !old(gif).writable()
            ==> r == Err::<(), GifError>(GifError::ENotWriteable) && *final(gif) == *old(gif),
        !(old(gif).Private.in_image && old(gif).Private.pixel_count > 0xffff0000) && old(gif).writable()
            ==> ({
            let desc = image_desc_bytes(left, top, width, height, interlace, opt_map(color_map));
            let has_map = color_map is Some || old(gif).SColorMap is Some;
            let fits = pixels_of(width, height) <= usize::MAX;
            let l = final(gif).Private.lzw;
            &&& final(gif).Image.Left == left && final(gif).Image.Top == top
            &&& final(gif).Image.Width == width && final(gif).Image.Height == height
            &&& final(gif).Image.Interlace == interlace
            &&& same_map(final(gif).Image.ColorMap, opt_map(color_map))
            &&& final(gif).Private.in_image == (old(gif).Private.in_image || has_map)
            &&& !has_map ==> r == Err::<(), GifError>(GifError::ENoColorMap)
            &&& has_map && !fits ==> r == Err::<(), GifError>(GifError::EDataTooBig)
            &&& has_map && fits <==> r is Ok
            &&& r is Err ==> final(gif).output() == old(gif).output() + desc
                && final(gif).Private.pixel_count == old(gif).Private.pixel_count
                && final(gif).Private.lzw == old(gif).Private.lzw
            &&& r is Ok ==> {
                let b = code_size(coding_bpp(*final(gif))->0) as int;
                &&& final(gif).Private.pixel_count == pixels_of(width, height)
                &&& l.bits_per_pixel == b
                &&& l.clear_code == pow2_bits(b)
                &&& l.eof_code == pow2_bits(b) + 1
                &&& l.crnt_code == FIRST_CODE
                &&& crate::encoder_lzw::enc_dict(l) == Map::<u32, i32>::empty()
                &&& pack_view(*final(gif)) == put_code(
                    fresh_packer(old(gif).Private.lzw.buf@, old(gif).output() + desc, b),
                    pow2_bits(b),
                )
            }
            &&& *final(gif) == (GifFileType {
                Image: final(gif).Image,
                Private: GifFilePrivateType {
                    in_image: final(gif).Private.in_image,
                    pixel_count: final(gif).Private.pixel_count,
                    io: final(gif).Private.io,
                    lzw: final(gif).Private.lzw,
                    ..old(gif).Private
                },
                ..*old(gif)
            })
        }),
{
    if gif.Private.in_image && gif.Private.pixel_count > 0xffff0000 {
        return Err(GifError::EHasImageDesc);
    }
    if !is_writable(gif) {
        return Err(GifError::ENotWriteable);
    }
    let ghost g0 = *gif;
    gif.Image.Left = left;
    gif.Image.Top = top;
    gif.Image.Width = width;
    gif.Image.Height = height;
    gif.Image.Interlace = interlace;
    gif.Image.ColorMap = match color_map {
        Some(cm) => Some(cm.duplicate()),
        None => None,
    };
    let ghost g1 = *gif;
    let intro: [u8; 1] = [DESCRIPTOR_INTRODUCER];
    if let Err(e) = gif.write_exact(&intro) {
        return Err(e);
    }
    if let Err(e) = egif_put_word(gif, left) {
        return Err(e);
    }
    if let Err(e) = egif_put_word(gif, top) {
        return Err(e);
    }
    if let Err(e) = egif_put_word(gif, width) {
        return Err(e);
    }
    if let Err(e) = egif_put_word(gif, height) {
        return Err(e);
    }
    let mut packed: u8 = 0;
    if color_map.is_some() {
        packed = packed | 0x80;
    }
    if interlace {
        packed = packed | 0x40;
    }
    if let Some(cm) = color_map {
        packed = packed | ((cm.BitsPerPixel - 1) as u8);
    }
    proof {
        let m = opt_map(color_map);
        let a: u8 = if m is Some { 0x80u8 } else { 0u8 };
        let b: u8 = if interlace { 0x40u8 } else { 0u8 };
        let c: u8 = match m {
            Some(x) => (x.BitsPerPixel - 1) as u8,
            None => 0u8,
        };
        assert(0u8 | a == a && a | 0u8 == a && (a | b) | 0u8 == a | b) by (bit_vector);
        assert(packed == a | b | c);
    }
    let packed_byte: [u8; 1] = [packed];
    if let Err(e) = gif.write_exact(&packed_byte) {
        return Err(e);
    }
    let ghost g2 = *gif;
    if let Some(cm) = color_map {
        if let Err(e) = put_color_table(gif, cm) {
            return Err(e);
        }
    }
    let ghost desc = image_desc_bytes(left, top, width, height, interlace, opt_map(color_map));
    proof {
        crate::file::lemma_same_except_io_trans(*gif, g2, g1);
        assert(gif.output() =~= g0.output() + desc);
    }
    if gif.SColorMap.is_none() && gif.Image.ColorMap.is_none() {
        return Err(GifError::ENoColorMap);
    }
    gif.Private.in_image = true;
    let pc = match (width as usize).checked_mul(height as usize) {
        Some(n) => n,
        None => return Err(GifError::EDataTooBig),
    };
    gif.Private.pixel_count = pc;
    let ghost g3 = *gif;
    let res = egif_setup_compress(gif);
    proof {
        assert(res is Ok);
        assert(g3.Private.lzw.buf@ == g0.Private.lzw.buf@);
    }
    res
}

/// How many pixels a call of `egif_put_line` writes: the line's, or, for an
/// empty line, the image width (none when the width is not positive).
pub open spec fn line_len(g: GifFileType, line: Seq<u8>) -> int {
    if line.len() == 0 {
        if g.Image.Width > 0 { g.Image.Width as int } else { 0 }
    } else {
        line.len() as int
    }
}

/// Each pixel kept within `bpp` bits.
pub open spec fn masked(line: Seq<u8>, bpp: int) -> Seq<u8> {
    Seq::new(line.len(), |i: int| line[i] & ((pow2_bits(bpp) - 1) as u8))
}

/// The pixels `egif_put_line` compresses: the line, masked, or, for an empty
/// line, `line_len` zeros.
pub open spec fn line_pixels(g: GifFileType, line: Seq<u8>) -> Seq<u8> {
    if line.len() == 0 {
        Seq::new(line_len(g, line) as nat, |i: int| 0u8)
    } else {
        masked(line, g.Private.lzw.bits_per_pixel as int)
    }
}

/// `g` with its count of pixels still owed replaced.
pub open spec fn with_pixels_owed(g: GifFileType, n: usize) -> GifFileType {
    GifFileType { Private: GifFilePrivateType { pixel_count: n, ..g.Private }, ..g }
}

/// The compressor's fields that compressing a line changes; the others stay.
pub open spec fn line_changed_only(a: LzwState, b: LzwState) -> bool {
    a == (LzwState {
        buf: a.buf,
        crnt_shift_dword: a.crnt_shift_dword,
        crnt_shift_state: a.crnt_shift_state,
        running_bits: a.running_bits,
        max_code1: a.max_code1,
        running_code: a.running_code,
        crnt_code: a.crnt_code,
        hash_table: a.hash_table,
        ..b
    })
}

proof fn lemma_mask_below(p: u8, bpp: int)
    requires
        0 <= bpp <= 8,
    ensures
        p & ((pow2_bits(bpp) - 1) as u8) < pow2_bits(bpp),
{
    lemma_pow2_bits_mono(bpp, 8);
    lemma_pow2_bits_bound(8);
    let m = (pow2_bits(bpp) - 1) as u8;
    assert(p & m <= m) by (bit_vector);
}

/// Compress a line of pixels, each first masked to the image's bits per
/// pixel in place; an empty line stands for a line of zeros as wide as the
/// image. A line longer than the pixels still owed gives `EDataTooBig`; a
/// handle not opened for writing `ENotWriteable`.
pub fn egif_put_line(gif: &mut GifFileType, line: &mut [u8]) -> (r: Result<(), GifError>)
    requires
        old(gif).wf(),
        old(gif).writable() && old(gif).Private.pixel_count >= line_len(*old(gif), old(line)@)
            ==> old(gif).Private.lzw.bits_per_pixel <= 8,
        old(gif).writable() && old(gif).Private.pixel_count >= line_len(*old(gif), old(line)@)
            && line_len(*old(gif), old(line)@) == 0 ==> old(gif).Private.lzw.crnt_code != FIRST_CODE,
    ensures
        final(gif).wf(),
        final(gif).writable() == old(gif).writable(),
        final(gif).input() == old(gif).input(),
        !old(gif).writable() ==> r == Err::<(), GifError>(GifError::ENotWriteable) && *final(gif) == *old(gif)
            && final(line)@ == old(line)@,
        old(gif).writable() && old(gif).Private.pixel_count < line_len(*old(gif), old(line)@) ==> r == Err::<
            (),
            GifError,
        >(GifError::EDataTooBig) && *final(gif) == *old(gif) && final(line)@ == old(line)@,
        old(gif).writable() && old(gif).Private.pixel_count >= line_len(*old(gif), old(line)@) ==> ({
            let n = line_len(*old(gif), old(line)@);
            let owed = (old(gif).Private.pixel_count - n) as usize;
            let l0 = old(gif).Private.lzw;
            &&& r is Ok
            &&& final(gif).Private.lzw.crnt_code != FIRST_CODE
            &&& final(line)@ == (if old(line)@.len() == 0 { old(line)@ } else { masked(old(line)@, l0.bits_per_pixel as int) })
            &&& final(gif).Private.pixel_count == owed
            &&& same_except_io_lzw(*final(gif), with_pixels_owed(*old(gif), owed))
            &&& line_changed_only(final(gif).Private.lzw, l0)
            &&& final(gif).input() == old(gif).input()
            &&& enc_view(*final(gif)) == compress_line_view(
                enc_view(*old(gif)),
                l0.clear_code as int,
                l0.eof_code as int,
                l0.bits_per_pixel as int,
                line_pixels(*old(gif), old(line)@),
                owed == 0,
            )
        }),
{
    if !is_writable(gif) {
        return Err(GifError::ENotWriteable);
    }
    let ghost g0 = *gif;
    let ghost l0 = gif.Private.lzw;
    if line.len() == 0 {
        let line_len: usize = if gif.Image.Width > 0 { gif.Image.Width as usize } else { 0 };
        if gif.Private.pixel_count < line_len {
            return Err(GifError::EDataTooBig);
        }
        gif.Private.pixel_count = gif.Private.pixel_count - line_len;
        let mask = get_code_mask(gif.Private.lzw.bits_per_pixel);
        let mut buf = crate::file::filled_u8(line_len, 0);
        let mut i: usize = 0;
        while i < line_len
            invariant
                i <= line_len == buf@.len(),
                forall|k: int| 0 <= k < buf@.len() ==> buf@[k] == 0u8,
            decreases line_len - i,
        {
            let p = buf[i] & mask;
            assert(0u8 & mask == 0u8) by (bit_vector);
            buf.set(i, p);
            i = i + 1;
        }
        proof {
            assert(buf@ =~= line_pixels(g0, old(line)@));
            if buf@.len() > 0 {
                lemma_pow2_bits_bound(g0.Private.lzw.bits_per_pixel as int);
            }
        }
        let r = egif_compress_line(gif, buf.as_slice());
        return r;
    }
    let line_len = line.len();
    if gif.Private.pixel_count < line_len {
        return Err(GifError::EDataTooBig);
    }
    gif.Private.pixel_count = gif.Private.pixel_count - line_len;
    let mask = get_code_mask(gif.Private.lzw.bits_per_pixel);
    let mut i: usize = 0;
    while i < line_len
        invariant
            i <= line_len == line@.len() == old(line)@.len(),
            mask == (pow2_bits(l0.bits_per_pixel as int) - 1) as u8,
            forall|k: int| 0 <= k < i ==> line@[k] == old(line)@[k] & mask,
            forall|k: int| i <= k < line_len ==> line@[k] == old(line)@[k],
        decreases line_len - i,
    {
        line[i] = line[i] & mask;
        i = i + 1;
    }
    proof {
        assert(line@ =~= masked(old(line)@, l0.bits_per_pixel as int));
        assert forall|k: int| 0 <= k < line@.len() implies line@[k] < l0.clear_code by {
            lemma_mask_below(old(line)@[k], l0.bits_per_pixel as int);
        }
    }
    egif_compress_line(gif, line)
}

/// Compress one pixel, masked to the image's bits per pixel. A pixel beyond
/// those owed gives `EDataTooBig`; a handle not opened for writing
/// `ENotWriteable`.
pub fn egif_put_pixel(gif: &mut GifFileType, pixel: u8) -> (r: Result<(), GifError>)
    requires
        old(gif).wf(),
        old(gif).writable() && old(gif).Private.pixel_count > 0 ==> old(gif).Private.lzw.bits_per_pixel <= 8,
    ensures
        final(gif).wf(),
        final(gif).writable() == old(gif).writable(),
        final(gif).input() == old(gif).input(),
        !old(gif).writable() ==> r == Err::<(), GifError>(GifError::ENotWriteable) && *final(gif) == *old(gif),
        old(gif).writable() && old(gif).Private.pixel_count == 0 ==> r == Err::<(), GifError>(
            GifError::EDataTooBig) && *final(gif) == *old(gif),
        old(gif).writable() && old(gif).Private.pixel_count > 0 ==> ({
            let owed = (old(gif).Private.pixel_count - 1) as usize;
            let l0 = old(gif).Private.lzw;
            &&& r is Ok
            &&& final(gif).Private.pixel_count == owed
            &&& same_except_io_lzw(*final(gif), with_pixels_owed(*old(gif), owed))
            &&& line_changed_only(final(gif).Private.lzw, l0)
            &&& final(gif).input() == old(gif).input()
            &&& enc_view(*final(gif)) == compress_line_view(
                enc_view(*old(gif)),
                l0.clear_code as int,
                l0.eof_code as int,
                l0.bits_per_pixel as int,
                masked(seq![pixel], l0.bits_per_pixel as int),
                owed == 0,
            )
        }),
{
    if !is_writable(gif) {
        return Err(GifError::ENotWriteable);
    }
    if gif.Private.pixel_count == 0 {
        return Err(GifError::EDataTooBig);
    }
    let ghost l0 = gif.Private.lzw;
    gif.Private.pixel_count = gif.Private.pixel_count - 1;
    let masked_pixel = pixel & get_code_mask(gif.Private.lzw.bits_per_pixel);
    let one: [u8; 1] = [masked_pixel];
    proof {
        assert(one@ =~= masked(seq![pixel], l0.bits_per_pixel as int));
        lemma_mask_below(pixel, l0.bits_per_pixel as int);
    }
    egif_compress_line(gif, &one)
}

/// The effect of a write of `bytes` that a handle opened for writing takes
/// and any other handle refuses with `ENotWriteable`, unchanged.
pub open spec fn wrote(g0: GifFileType, g: GifFileType, r: Result<(), GifError>, bytes: Seq<u8>) -> bool {
    &&& same_except_io(g, g0)
    &&& g.input() == g0.input()
    &&& g.writable() == g0.writable()
    &&& g.readable() == g0.readable()
    &&& (r is Ok <==> g0.writable())
    &&& r is Ok ==> g.output() == g0.output() + bytes
    &&& r is Err ==> r == Err::<(), GifError>(GifError::ENotWriteable) && g == g0
}

/// Write the introducer of an extension with function code `ext_code`.
pub fn egif_put_extension_leader(gif: &mut GifFileType, ext_code: i32) -> (r: Result<(), GifError>)
    requires
        old(gif).wf(),
    ensures
        final(gif).wf(),
        wrote(*old(gif), *final(gif), r, seq![EXTENSION_INTRODUCER, ext_code as u8]),
{
    if !is_writable(gif) {
        return Err(GifError::ENotWriteable);
    }
    let buf: [u8; 2] = [EXTENSION_INTRODUCER, ext_code as u8];
    if let Err(e) = gif.write_exact(&buf) {
        return Err(e);
    }
    assert(buf@ =~= seq![EXTENSION_INTRODUCER, ext_code as u8]);
    Ok(())
}

/// A data sub-block: its length, truncated to a byte, then its bytes.
pub open spec fn block_bytes(data: Seq<u8>) -> Seq<u8> {
    seq![data.len() as u8] + data
}

/// Write one data sub-block of an extension.
pub fn egif_put_extension_block(gif: &mut GifFileType, extension: &[u8]) -> (r: Result<(), GifError>)
    requires
        old(gif).wf(),
    ensures
        final(gif).wf(),
        wrote(*old(gif), *final(gif), r, block_bytes(extension@)),
{
    if !is_writable(gif) {
        return Err(GifError::ENotWriteable);
    }
    let len_byte: [u8; 1] = [extension.len() as u8];
    if let Err(e) = gif.write_exact(&len_byte) {
        return Err(e);
    }
    if let Err(e) = gif.write_exact(extension) {
        return Err(e);
    }
    assert(old(gif).output() + block_bytes(extension@) =~= old(gif).output() + len_byte@ + extension@);
    Ok(())
}

/// Write the empty sub-block that ends an extension.
pub fn egif_put_extension_trailer(gif: &mut GifFileType) -> (r: Result<(), GifError>)
    requires
        old(gif).wf(),
    ensures
        final(gif).wf(),
        wrote(*old(gif), *final(gif), r, seq![0u8]),
{
    if !is_writable(gif) {
        return Err(GifError::ENotWriteable);
    }
    let zero: [u8; 1] = [0u8];
    if let Err(e) = gif.write_exact(&zero) {
        return Err(e);
    }
    assert(zero@ =~= seq![0u8]);
    Ok(())
}

/// An extension of one sub-block: the introducer and function code (only
/// the length byte for function code 0), the data, and the terminator.
pub open spec fn extension_bytes(ext_code: i32, data: Seq<u8>) -> Seq<u8> {
    (if ext_code == 0 {
        seq![data.len() as u8]
    } else {
        seq![EXTENSION_INTRODUCER, ext_code as u8, data.len() as u8]
    }) + data + seq![0u8]
}

/// Write an extension whose data fits in one sub-block.
pub fn egif_put_extension(gif: &mut GifFileType, ext_code: i32, extension: &[u8]) -> (r: Result<(), GifError>)
    requires
        old(gif).wf(),
    ensures
        final(gif).wf(),
        wrote(*old(gif), *final(gif), r, extension_bytes(ext_code, extension@)),
{
    if !is_writable(gif) {
        return Err(GifError::ENotWriteable);
    }
    let ext_len = extension.len() as u8;
    let ghost head: Seq<u8>;
    if ext_code == 0 {
        let b: [u8; 1] = [ext_len];
        if let Err(e) = gif.write_exact(&b) {
            return Err(e);
        }
        proof {
            head = b@;
        }
    } else {
        let b: [u8; 3] = [EXTENSION_INTRODUCER, ext_code as u8, ext_len];
        if let Err(e) = gif.write_exact(&b) {
            return Err(e);
        }
        proof {
            head = b@;
        }
    }
    if let Err(e) = gif.write_exact(extension) {
        return Err(e);
    }
    let zero: [u8; 1] = [0u8];
    if let Err(e) = gif.write_exact(&zero) {
        return Err(e);
    }
    assert(old(gif).output() + extension_bytes(ext_code, extension@) =~= old(gif).output() + head + extension@ + zero@);
    Ok(())
}

/// Data cut into sub-blocks of 255 bytes and a last, shorter one.
pub open spec fn sub_blocks(c: Seq<u8>) -> Seq<u8>
    decreases c.len(),
{
    if c.len() == 0 {
        Seq::empty()
    } else if c.len() <= 255 {
        block_bytes(c)
    } else {
        block_bytes(c.take(255)) + sub_blocks(c.skip(255))
    }
}

/// A comment extension: one sub-block for a short comment, else sub-blocks
/// of 255 bytes and a terminator.
pub open spec fn comment_bytes(c: Seq<u8>) -> Seq<u8> {
    if c.len() <= 255 {
        extension_bytes(COMMENT_EXT_FUNC_CODE, c)
    } else {
        seq![EXTENSION_INTRODUCER, COMMENT_EXT_FUNC_CODE as u8] + sub_blocks(c) + seq![0u8]
    }
}

/// Write a comment extension of any length.
pub fn egif_put_comment(gif: &mut GifFileType, comment: &[u8]) -> (r: Result<(), GifError>)
    requires
        old(gif).wf(),
    ensures
        final(gif).wf(),
        wrote(*old(gif), *final(gif), r, comment_bytes(comment@)),
{
    let length = comment.len();
    if length <= 255 {
        return egif_put_extension(gif, COMMENT_EXT_FUNC_CODE, comment);
    }
    if let Err(e) = egif_put_extension_leader(gif, COMMENT_EXT_FUNC_CODE) {
        return Err(e);
    }
    let ghost base = old(gif).output() + seq![EXTENSION_INTRODUCER, COMMENT_EXT_FUNC_CODE as u8];
    let mut offset: usize = 0;
    assert(comment@.skip(0) =~= comment@);
    while length - offset > 255
        invariant
            length == comment@.len(),
            offset <= length,
            gif.wf(),
            gif.writable(),
            old(gif).writable(),
            same_except_io(*gif, *old(gif)),
            gif.input() == old(gif).input(),
            base + sub_blocks(comment@) == gif.output() + sub_blocks(comment@.skip(offset as int)),
        decreases length - offset,
    {
        let ghost before = *gif;
        let chunk = vstd::slice::slice_subrange(comment, offset, offset + 255);
        proof {
            let rest = comment@.skip(offset as int);
            assert(chunk@ =~= rest.take(255));
            assert(rest.skip(255) =~= comment@.skip(offset + 255));
        }
        if let Err(e) = egif_put_extension_block(gif, chunk) {
            return Err(e);
        }
        offset = offset + 255;
        proof {
            crate::file::lemma_same_except_io_trans(*gif, before, *old(gif));
            assert(gif.output() + sub_blocks(comment@.skip(offset as int))
                =~= before.output() + (block_bytes(chunk@) + sub_blocks(comment@.skip(offset as int))));
        }
    }
    if length - offset > 0 {
        let ghost before = *gif;
        let chunk = vstd::slice::slice_subrange(comment, offset, length);
        assert(chunk@ =~= comment@.skip(offset as int));
        if let Err(e) = egif_put_extension_block(gif, chunk) {
            return Err(e);
        }
        proof {
            crate::file::lemma_same_except_io_trans(*gif, before, *old(gif));
        }
    } else {
        assert(comment@.skip(offset as int) =~= Seq::<u8>::empty());
    }
    let ghost before = *gif;
    if let Err(e) = egif_put_extension_trailer(gif) {
        return Err(e);
    }
    proof {
        crate::file::lemma_same_except_io_trans(*gif, before, *old(gif));
        assert(gif.output() =~= old(gif).output() + comment_bytes(comment@));
    }
    Ok(())
}

/// Write a sub-block of already compressed image data, length first, as
/// is; the code size was written when the image was set up.
pub fn egif_put_code(gif: &mut GifFileType, code_block: &[u8]) -> (r: Result<(), GifError>)
    requires
        old(gif).wf(),
        old(gif).writable() ==> code_block@.len() >= 1 && code_block@.len() >= code_block@[0] + 1,
    ensures
        final(gif).wf(),
        wrote(*old(gif), *final(gif), r, code_block@.take(code_block@[0] + 1)),
{
    if !is_writable(gif) {
        return Err(GifError::ENotWriteable);
    }
    match egif_put_code_next_bytes(gif, Some(code_block)) {
        Ok(()) => Ok(()),
        Err(e) => Err(e),
    }
}

/// Write the next sub-block of compressed image data, length first, as is;
/// with none, the empty sub-block that ends the data, after which no pixels
/// are owed. A handle not opened for writing gives `EWriteFailed`.
pub fn egif_put_code_next_bytes(gif: &mut GifFileType, code_block: Option<&[u8]>) -> (r: Result<(), GifError>)
    requires
        old(gif).wf(),
        code_block matches Some(b) ==> b@.len() >= 1 && b@.len() >= b@[0] + 1,
    ensures
        final(gif).wf(),
        final(gif).input() == old(gif).input(),
        final(gif).writable() == old(gif).writable(),
        r is Ok <==> old(gif).writable(),
        r is Err ==> r == Err::<(), GifError>(GifError::EWriteFailed) && same_except_io(*final(gif), *old(gif))
            && final(gif).output() == old(gif).output(),
        r is Ok ==> match code_block {
            Some(b) => same_except_io(*final(gif), *old(gif))
                && final(gif).output() == old(gif).output() + b@.take(b@[0] + 1),
            None => same_except_io(*final(gif), with_pixels_owed(*old(gif), 0))
                && final(gif).output() == old(gif).output() + seq![0u8],
        },
{
    match code_block {
        Some(block) => {
            let total_len = block[0] as usize + 1;
            let part = vstd::slice::slice_subrange(block, 0, total_len);
            let n = gif.write(part);
            if n != total_len {
                assert(part@.take(0) =~= Seq::<u8>::empty());
                assert(gif.output() =~= old(gif).output());
                return Err(GifError::EWriteFailed);
            }
            assert(part@.take(n as int) =~= block@.take(block@[0] + 1));
            Ok(())
        },
        None => {
            let zero: [u8; 1] = [0u8];
            let n = gif.write(&zero);
            if n != 1 {
                assert(zero@.take(0) =~= Seq::<u8>::empty());
                assert(gif.output() =~= old(gif).output());
                return Err(GifError::EWriteFailed);
            }
            assert(zero@.take(1) =~= seq![0u8]);
            gif.Private.pixel_count = 0;
            Ok(())
        },
    }
}

/// Write the trailer that ends the GIF.
pub fn egif_close_file(gif: &mut GifFileType) -> (r: Result<(), GifError>)
    requires
        old(gif).wf(),
    ensures
        final(gif).wf(),
        wrote(*old(gif), *final(gif), r, seq![TERMINATOR_INTRODUCER]),
{
    if !is_writable(gif) {
        return Err(GifError::ENotWriteable);
    }
    let t: [u8; 1] = [TERMINATOR_INTRODUCER];
    if let Err(e) = gif.write_exact(&t) {
        return Err(e);
    }
    assert(t@ =~= seq![TERMINATOR_INTRODUCER]);
    Ok(())
}

/// The index of the first graphics control extension among `blocks`.
fn find_graphics_block(blocks: &[ExtensionBlock]) -> (r: Option<usize>)
    ensures
        match r {
            Some(j) => first_graphics_block(blocks@) == Some(j as int) && j < blocks@.len(),
            None => first_graphics_block(blocks@) is None,
        },
{
    let mut k: usize = 0;
    while k < blocks.len()
        invariant
            k <= blocks@.len(),
            forall|q: int| 0 <= q < k ==> #[trigger] blocks@[q].Function != GRAPHICS_EXT_FUNC_CODE,
        decreases blocks@.len() - k,
    {
        if blocks[k].Function == GRAPHICS_EXT_FUNC_CODE {
            proof {
                lemma_first_graphics_block(blocks@, k as int);
            }
            return Some(k);
        }
        k = k + 1;
    }
    proof {
        lemma_no_graphics_block(blocks@);
    }
    None
}

/// Extension blocks after a graphics control block was stored: the first
/// graphics control extension gets the block's four bytes, or, with none,
/// one is added at the end.
pub open spec fn gcb_stored(before: Seq<ExtensionBlock>, after: Seq<ExtensionBlock>, gcb: GraphicsControlBlock) -> bool {
    match first_graphics_block(before) {
        Some(j) => {
            &&& after.len() == before.len()
            &&& forall|k: int| 0 <= k < before.len() && k != j ==> after[k] == before[k]
            &&& after[j].Function == before[j].Function
            &&& after[j].ByteCount == before[j].ByteCount
            &&& after[j].Bytes@ == gcb_bytes(gcb)
        },
        None => {
            &&& after.len() == before.len() + 1
            &&& after.subrange(0, before.len() as int) == before
            &&& after[before.len() as int].Function == GRAPHICS_EXT_FUNC_CODE
            &&& after[before.len() as int].ByteCount == 4
            &&& after[before.len() as int].Bytes@ == gcb_bytes(gcb)
        },
    }
}

/// Store a graphics control block in saved image `image_index` (see
/// `gcb_stored`); an index out of range gives `ENotWriteable`.
pub fn egif_gcb_to_saved_extension(gcb: &GraphicsControlBlock, gif: &mut GifFileType, image_index: i32) -> (r: Result<(), GifError>)
    requires
        0 <= image_index < old(gif).SavedImages@.len() ==> (first_graphics_block(
            old(gif).SavedImages@[image_index as int].ExtensionBlocks@,
        ) matches Some(j) ==> old(gif).SavedImages@[image_index as int].ExtensionBlocks@[j].Bytes@.len() == 4),
    ensures
        !(0 <= image_index < old(gif).SavedImages@.len()) ==> r == Err::<(), GifError>(GifError::ENotWriteable)
            && *final(gif) == *old(gif),
        0 <= image_index < old(gif).SavedImages@.len() ==> ({
            let i = image_index as int;
            let before = old(gif).SavedImages@[i];
            let after = final(gif).SavedImages@[i];
            &&& r is Ok
            &&& final(gif).SavedImages@.len() == old(gif).SavedImages@.len()
            &&& forall|k: int| 0 <= k < old(gif).SavedImages@.len() && k != i ==> final(gif).SavedImages@[k] == old(gif).SavedImages@[k]
            &&& after.ImageDesc == before.ImageDesc
            &&& after.RasterBits == before.RasterBits
            &&& gcb_stored(before.ExtensionBlocks@, after.ExtensionBlocks@, *gcb)
            &&& *final(gif) == (GifFileType { SavedImages: final(gif).SavedImages, ..*old(gif) })
        }),
{
    if image_index < 0 || image_index as usize >= gif.SavedImages.len() {
        return Err(GifError::ENotWriteable);
    }
    let idx = image_index as usize;
    let mut saved = gif.SavedImages.remove(idx);
    let ghost before = saved;
    let mut ext: [u8; 4] = [0u8; 4];
    egif_gcb_to_extension(gcb, &mut ext);
    match find_graphics_block(saved.extension_blocks()) {
        Some(j) => {
            let mut blk = saved.ExtensionBlocks.remove(j);
            blk.Bytes.set(0, ext[0]);
            blk.Bytes.set(1, ext[1]);
            blk.Bytes.set(2, ext[2]);
            blk.Bytes.set(3, ext[3]);
            assert(blk.Bytes@ =~= gcb_bytes(*gcb));
            saved.ExtensionBlocks.insert(j, blk);
            proof {
                assert forall|k: int| 0 <= k < before.ExtensionBlocks@.len() && k != j implies saved.ExtensionBlocks@[k]
                    == before.ExtensionBlocks@[k] by {
                    if k < j {
                    } else {
                    }
                }
            }
        },
        None => {
            saved.ExtensionBlocks.push(ExtensionBlock::new(GRAPHICS_EXT_FUNC_CODE, &ext));
            assert(saved.ExtensionBlocks@.subrange(0, before.ExtensionBlocks@.len() as int) =~= before.ExtensionBlocks@);
        },
    }
    gif.SavedImages.insert(idx, saved);
    proof {
        assert forall|k: int| 0 <= k < old(gif).SavedImages@.len() && k != idx implies gif.SavedImages@[k]
            == old(gif).SavedImages@[k] by {
            if k < idx {
            } else {
            }
        }
    }
    Ok(())
}

/// The bytes written for extension block `j` of `bs`: the introducer and
/// function code unless it continues the previous block, the block as a
/// sub-block, and a terminator after the last block of an extension.
pub open spec fn ext_run_bytes(bs: Seq<ExtensionBlock>, j: int) -> Seq<u8> {
    let b = bs[j];
    (if b.Function != CONTINUE_EXT_FUNC_CODE {
        seq![EXTENSION_INTRODUCER, b.Function as u8]
    } else {
        Seq::empty()
    }) + block_bytes(b.Bytes@) + (if j == bs.len() - 1 || bs[j + 1].Function != CONTINUE_EXT_FUNC_CODE {
        seq![0u8]
    } else {
        Seq::empty()
    })
}

/// The bytes written for the first `n` of `bs`.
pub open spec fn ext_blocks_bytes(bs: Seq<ExtensionBlock>, n: int) -> Seq<u8>
    decreases n,
{
    if n <= 0 {
        Seq::empty()
    } else {
        ext_blocks_bytes(bs, n - 1) + ext_run_bytes(bs, n - 1)
    }
}

/// Write extension blocks, grouping continuation blocks into the extension
/// they continue.
fn egif_write_extensions(gif: &mut GifFileType, ext_blocks: &[ExtensionBlock]) -> (r: Result<(), GifError>)
    requires
        old(gif).wf(),
        old(gif).writable(),
    ensures
        final(gif).wf(),
        final(gif).writable(),
        r is Ok,
        same_except_io(*final(gif), *old(gif)),
        final(gif).input() == old(gif).input(),
        final(gif).output() == old(gif).output() + ext_blocks_bytes(ext_blocks@, ext_blocks@.len() as int),
{
    let n = ext_blocks.len();
    let mut j: usize = 0;
    assert(old(gif).output() + ext_blocks_bytes(ext_blocks@, 0) =~= old(gif).output());
    while j < n
        invariant
            n == ext_blocks@.len(),
            j <= n,
            gif.wf(),
            gif.writable(),
            same_except_io(*gif, *old(gif)),
            gif.input() == old(gif).input(),
            gif.output() == old(gif).output() + ext_blocks_bytes(ext_blocks@, j as int),
        decreases n - j,
    {
        let ghost g0 = *gif;
        let ep = &ext_blocks[j];
        if ep.Function != CONTINUE_EXT_FUNC_CODE {
            if let Err(e) = egif_put_extension_leader(gif, ep.Function) {
                return Err(e);
            }
        }
        let ghost g1 = *gif;
        if let Err(e) = egif_put_extension_block(gif, ep.bytes()) {
            return Err(e);
        }
        let ghost g2 = *gif;
        if j == n - 1 || ext_blocks[j + 1].Function != CONTINUE_EXT_FUNC_CODE {
            if let Err(e) = egif_put_extension_trailer(gif) {
                return Err(e);
            }
        }
        proof {
            crate::file::lemma_same_except_io_trans(g2, g1, g0);
            crate::file::lemma_same_except_io_trans(*gif, g2, g0);
            crate::file::lemma_same_except_io_trans(*gif, g0, *old(gif));
            assert(gif.output() =~= g0.output() + ext_run_bytes(ext_blocks@, j as int));
        }
        j = j + 1;
    }
    Ok(())
}

/// The number of rows `o, o + s, o + 2s, ...` below `h`.
pub open spec fn pass_len(o: int, s: int, h: int) -> int {
    if h <= o { 0 } else { (h - o + s - 1) / s }
}

/// The rows `o, o + s, o + 2s, ...` below `h`.
pub open spec fn pass_rows(o: int, s: int, h: int) -> Seq<int> {
    Seq::new(pass_len(o, s, h) as nat, |i: int| o + i * s)
}

/// The order in which the rows of an image `h` rows high are written: top
/// to bottom, or, interlaced, every 8th row from row 0, every 8th from row
/// 4, every 4th from row 2, and every 2nd from row 1.
pub open spec fn row_order(h: int, interlace: bool) -> Seq<int> {
    if interlace {
        pass_rows(0, 8, h) + pass_rows(4, 8, h) + pass_rows(2, 4, h) + pass_rows(1, 2, h)
    } else {
        pass_rows(0, 1, h)
    }
}

/// The pixels of `rows` of a raster `w` pixels wide, one row after another.
pub open spec fn gather_rows(raster: Seq<u8>, w: int, rows: Seq<int>) -> Seq<u8>
    decreases rows.len(),
{
    if rows.len() == 0 {
        Seq::empty()
    } else {
        gather_rows(raster, w, rows.drop_last()) + raster.subrange(rows.last() * w, rows.last() * w + w)
    }
}

pub(crate) proof fn lemma_pass_len(o: int, s: int, h: int, c: int)
    requires
        0 <= o,
        1 <= s,
        0 <= c,
    ensures
        (o + c * s < h) == (c < pass_len(o, s, h)),
{
    if h > o {
        let q = (h - o - 1) / s;
        let r = (h - o - 1) % s;
        assert(h - o - 1 == q * s + r && 0 <= r < s) by (nonlinear_arith)
            requires s >= 1, h - o - 1 >= 0, q == (h - o - 1) / s, r == (h - o - 1) % s;
        assert((h - o + s - 1) / s == q + 1) by (nonlinear_arith)
            requires s >= 1, h - o - 1 == q * s + r, 0 <= r < s, q >= 0;
        assert((o + c * s < h) == (c <= q)) by (nonlinear_arith)
            requires s >= 1, h - o - 1 == q * s + r, 0 <= r < s, c >= 0, q >= 0;
    } else {
        assert(c * s >= 0) by (nonlinear_arith)
            requires c >= 0, s >= 1;
    }
}

pub(crate) proof fn lemma_row_order_len(h: int, interlace: bool)
    requires
        h >= 0,
    ensures
        row_order(h, interlace).len() == h,
{
    if interlace {
        let q = h / 8;
        let r = h % 8;
        assert(h == 8 * q + r && 0 <= r < 8 && q >= 0);
        assert(pass_len(0, 8, h) == q + (if r > 0 { 1int } else { 0 })) by {
            if h > 0 {
                assert((h + 7) / 8 == q + (if r > 0 { 1int } else { 0 })) by (nonlinear_arith)
                    requires h == 8 * q + r, 0 <= r < 8;
            }
        }
        assert(pass_len(4, 8, h) == q + (if r > 4 { 1int } else { 0 })) by {
            if h > 4 {
                assert((h - 4 + 7) / 8 == q + (if r > 4 { 1int } else { 0 })) by (nonlinear_arith)
                    requires h == 8 * q + r, 0 <= r < 8, h > 4;
            }
        }
        assert(pass_len(2, 4, h) == 2 * q + (if r > 2 { 1int } else { 0 }) + (if r > 6 { 1int } else { 0 })) by {
            if h > 2 {
                assert((h - 2 + 3) / 4 == 2 * q + (if r > 2 { 1int } else { 0 }) + (if r > 6 { 1int } else { 0 }))
                    by (nonlinear_arith)
                    requires h == 8 * q + r, 0 <= r < 8, h > 2;
            }
        }
        assert(pass_len(1, 2, h) == 4 * q + (if r > 1 { 1int } else { 0 }) + (if r > 3 { 1int } else { 0 })
            + (if r > 5 { 1int } else { 0 }) + (if r > 7 { 1int } else { 0 })) by {
            if h > 1 {
                assert((h - 1 + 1) / 2 == 4 * q + (if r > 1 { 1int } else { 0 }) + (if r > 3 { 1int } else { 0 })
                    + (if r > 5 { 1int } else { 0 })) by (nonlinear_arith)
                    requires h == 8 * q + r, 0 <= r < 8, h > 1;
            }
        }
    }
}

/// Where an image's rows stand while they are written: the compressor has
/// taken the pixels of `rows`, masked to `b` bits, ending the data after the
/// last row, and pixels are owed for the rows still to come; the handle is
/// otherwise as it was after the image descriptor.
pub open spec fn rows_progress(
    g: GifFileType,
    g_desc: GifFileType,
    e0: EncView,
    b: int,
    raster: Seq<u8>,
    w: int,
    h: int,
    rows: Seq<int>,
) -> bool {
    &&& g.wf()
    &&& g.writable()
    &&& 2 <= b <= 8
    &&& g.Private.lzw.bits_per_pixel == b
    &&& g.Private.lzw.clear_code == pow2_bits(b)
    &&& g.Private.lzw.eof_code == pow2_bits(b) + 1
    &&& 0 < w
    &&& rows.len() <= h
    &&& h * w <= raster.len()
    &&& g.Private.pixel_count == w * (h - rows.len())
    &&& forall|k: int| 0 <= k < rows.len() ==> 0 <= #[trigger] rows[k] < h
    &&& same_except_io_lzw(g, with_pixels_owed(g_desc, g.Private.pixel_count))
    &&& enc_view(g) == (if rows.len() == 0 {
        e0
    } else {
        compress_line_view(e0, pow2_bits(b), pow2_bits(b) + 1, b, masked(gather_rows(raster, w, rows), b), rows.len() == h)
    })
}

proof fn lemma_row_bounds(j: int, w: int, h: int, len: int)
    requires
        0 <= j < h,
        0 < w,
        h * w <= len,
    ensures
        0 <= j * w,
        j * w + w <= len,
{
    assert(j * w + w <= h * w) by (nonlinear_arith)
        requires 0 <= j < h, 0 < w;
    assert(0 <= j * w) by (nonlinear_arith)
        requires 0 <= j, 0 < w;
}

proof fn lemma_gather_len(raster: Seq<u8>, w: int, h: int, rows: Seq<int>)
    requires
        0 < w,
        h * w <= raster.len(),
        forall|k: int| 0 <= k < rows.len() ==> 0 <= #[trigger] rows[k] < h,
    ensures
        gather_rows(raster, w, rows).len() == rows.len() * w,
    decreases rows.len(),
{
    if rows.len() > 0 {
        let r = rows.drop_last();
        assert forall|k: int| 0 <= k < r.len() implies 0 <= #[trigger] r[k] < h by {
            assert(r[k] == rows[k]);
        }
        lemma_gather_len(raster, w, h, r);
        lemma_row_bounds(rows.last(), w, h, raster.len() as int);
        assert(r.len() * w + w == rows.len() * w) by (nonlinear_arith)
            requires r.len() + 1 == rows.len();
    }
}

/// Write row `j` of `raster` as the next line of the image.
fn put_row(
    gif: &mut GifFileType,
    raster: &[u8],
    w: usize,
    h: usize,
    j: usize,
    line_buf: &mut Vec<u8>,
    Ghost(g_desc): Ghost<GifFileType>,
    Ghost(e0): Ghost<EncView>,
    Ghost(b): Ghost<int>,
    Ghost(rows): Ghost<Seq<int>>,
) -> (r: Result<(), GifError>)
    requires
        rows_progress(*old(gif), g_desc, e0, b, raster@, w as int, h as int, rows),
        rows.len() < h,
        j < h,
        old(line_buf)@.len() == w,
    ensures
        r is Ok,
        final(line_buf)@.len() == w,
        rows_progress(*final(gif), g_desc, e0, b, raster@, w as int, h as int, rows.push(j as int)),
{
    proof {
        lemma_row_bounds(j as int, w as int, h as int, raster@.len() as int);
        assert(j * w + w <= raster@.len());
        lemma_gather_len(raster@, w as int, h as int, rows);
    }
    let rlen = raster.len();
    assert(j * w + w <= rlen);
    let start = j * w;
    let mut k: usize = 0;
    while k < w
        invariant
            k <= w,
            line_buf@.len() == w,
            rlen == raster@.len(),
            start + w <= raster@.len(),
            forall|q: int| 0 <= q < k ==> line_buf@[q] == raster@[start + q],
        decreases w - k,
    {
        line_buf.set(k, raster[start + k]);
        k = k + 1;
    }
    let ghost row = raster@.subrange(start as int, start + w);
    assert(line_buf@ =~= row);
    let ghost g0 = *gif;
    proof {
        assert(w * (h - rows.len()) >= w) by (nonlinear_arith)
            requires h - rows.len() >= 1, w > 0;
        assert(w * (h - rows.len()) - w == w * (h - (rows.len() + 1))) by (nonlinear_arith);
        assert((w * (h - (rows.len() + 1)) == 0) == (rows.len() + 1 == h)) by (nonlinear_arith)
            requires w > 0, h - (rows.len() + 1) >= 0;
    }
    let r = egif_put_line(gif, line_buf.as_mut_slice());
    proof {
        let rows2 = rows.push(j as int);
        assert(rows2.drop_last() =~= rows);
        let clear = pow2_bits(b);
        let pix = masked(gather_rows(raster@, w as int, rows), b);
        let mrow = masked(row, b);
        assert(masked(gather_rows(raster@, w as int, rows2), b) =~= pix + mrow);
        if rows.len() > 0 {
            assert(rows.len() * w > 0) by (nonlinear_arith)
                requires rows.len() > 0, w > 0;
            assert(pix.len() > 0);
            lemma_compress_concat(e0, clear, clear + 1, b, pix, mrow, rows.len() + 1 == h);
        } else {
            assert(pix + mrow =~= mrow);
        }
        assert forall|q: int| 0 <= q < rows2.len() implies 0 <= #[trigger] rows2[q] < h by {
            if q < rows.len() {
                assert(rows2[q] == rows[q]);
            }
        }
    }
    r
}

/// Write the rows `o, o + s, ...` below `h` of `raster`.
fn put_pass(
    gif: &mut GifFileType,
    raster: &[u8],
    w: usize,
    h: usize,
    o: usize,
    s: usize,
    line_buf: &mut Vec<u8>,
    Ghost(g_desc): Ghost<GifFileType>,
    Ghost(e0): Ghost<EncView>,
    Ghost(b): Ghost<int>,
    Ghost(rows): Ghost<Seq<int>>,
) -> (r: Result<(), GifError>)
    requires
        rows_progress(*old(gif), g_desc, e0, b, raster@, w as int, h as int, rows),
        rows.len() + pass_len(o as int, s as int, h as int) <= h,
        1 <= s <= 8,
        o < 8,
        h < usize::MAX - 8,
        old(line_buf)@.len() == w,
    ensures
        r is Ok,
        final(line_buf)@.len() == w,
        rows_progress(*final(gif), g_desc, e0, b, raster@, w as int, h as int, rows + pass_rows(o as int, s as int, h as int)),
{
    let mut j: usize = o;
    let ghost mut c: int = 0;
    assert(rows + pass_rows(o as int, s as int, h as int).take(0) =~= rows);
    while j < h
        invariant
            rows_progress(*gif, g_desc, e0, b, raster@, w as int, h as int, rows + pass_rows(o as int, s as int, h as int).take(c)),
            rows.len() + pass_len(o as int, s as int, h as int) <= h,
            1 <= s <= 8,
            o < 8,
            h < usize::MAX - 8,
            line_buf@.len() == w,
            0 <= c,
            j == o + c * s,
            j <= h + 8,
            c <= pass_len(o as int, s as int, h as int),
        decreases h + 8 - j,
    {
        proof {
            lemma_pass_len(o as int, s as int, h as int, c);
        }
        let ghost done = rows + pass_rows(o as int, s as int, h as int).take(c);
        if let Err(e) = put_row(gif, raster, w, h, j, line_buf, Ghost(g_desc), Ghost(e0), Ghost(b), Ghost(done)) {
            return Err(e);
        }
        proof {
            let p = pass_rows(o as int, s as int, h as int);
            assert(p[c] == j);
            assert(done.push(j as int) =~= rows + p.take(c + 1));
            assert(o + (c + 1) * s == o + c * s + s) by (nonlinear_arith);
            c = c + 1;
        }
        j = j + s;
    }
    proof {
        lemma_pass_len(o as int, s as int, h as int, c);
        let p = pass_rows(o as int, s as int, h as int);
        assert(p.take(c) =~= p);
    }
    Ok(())
}

/// The code size an image is written with: that of its own color map, else
/// of the screen's.
pub open spec fn coded_bpp(im: SavedImage, screen: Option<ColorMapObject>) -> int {
    code_size(match im.ImageDesc.ColorMap {
        Some(m) => m.BitsPerPixel,
        None => screen->0.BitsPerPixel,
    }) as int
}

/// The pixels of an image in the order they are written, masked to `b` bits;
/// none when it has no rows or no columns.
pub open spec fn image_pixels(im: SavedImage, b: int) -> Seq<u8> {
    if im.ImageDesc.Width <= 0 || im.ImageDesc.Height <= 0 {
        Seq::empty()
    } else {
        masked(
            gather_rows(im.RasterBits@, im.ImageDesc.Width as int, row_order(im.ImageDesc.Height as int, im.ImageDesc.Interlace)),
            b,
        )
    }
}

/// The compressor after an image: as set up for an image without pixels,
/// else with every pixel compressed and the data ended.
pub open spec fn image_end(e0: EncView, b: int, pixels: Seq<u8>) -> EncView {
    if pixels.len() == 0 {
        e0
    } else {
        compress_line_view(e0, pow2_bits(b), pow2_bits(b) + 1, b, pixels, true)
    }
}

/// The sub-block buffer and the output after writing an image: nothing for
/// an image without a raster, else its extensions, its descriptor, the code
/// size, and its compressed pixels.
pub open spec fn spew_image(buf: Seq<u8>, out: Seq<u8>, im: SavedImage, screen: Option<ColorMapObject>) -> (Seq<u8>, Seq<u8>) {
    if im.RasterBits@.len() == 0 {
        (buf, out)
    } else {
        let d = im.ImageDesc;
        let out1 = out + ext_blocks_bytes(im.ExtensionBlocks@, im.ExtensionBlocks@.len() as int) + image_desc_bytes(
            d.Left,
            d.Top,
            d.Width,
            d.Height,
            d.Interlace,
            d.ColorMap,
        );
        let b = coded_bpp(im, screen);
        let e0 = EncView {
            pack: put_code(fresh_packer(buf, out1, b), pow2_bits(b)),
            crnt: FIRST_CODE,
            dict: Map::empty(),
        };
        let e = image_end(e0, b, image_pixels(im, b));
        (e.pack.buf, e.pack.out)
    }
}

/// `spew_image` over each of `images` in turn.
pub open spec fn spew_images(buf: Seq<u8>, out: Seq<u8>, images: Seq<SavedImage>, screen: Option<ColorMapObject>) -> (Seq<u8>, Seq<u8>)
    decreases images.len(),
{
    if images.len() == 0 {
        (buf, out)
    } else {
        let (b, o) = spew_images(buf, out, images.drop_last(), screen);
        spew_image(b, o, images.last(), screen)
    }
}

/// An image that can be written: one with a raster has a positive width
/// when it has rows, no negative width with at most one row, a raster
/// holding all its rows, and a color map of at most 8 bits per pixel that
/// can be written out.
pub open spec fn spew_image_ok(im: SavedImage, screen: Option<ColorMapObject>) -> bool {
    let d = im.ImageDesc;
    im.RasterBits@.len() > 0 ==> {
        &&& d.Width == 0 ==> d.Height <= 0
        &&& d.Width < 0 ==> d.Height < 0 || d.Height >= 2
        &&& d.Width > 0 && d.Height > 0 ==> d.Width * d.Height <= im.RasterBits@.len()
        &&& writable_map(d.ColorMap)
        &&& d.ColorMap matches Some(m) ==> m.BitsPerPixel <= 8
        &&& d.ColorMap is None ==> (screen matches Some(m) ==> m.BitsPerPixel <= 8)
    }
}

/// How writing image `im` goes, from the compressor's `in_image` flag and
/// pixel count `pc`: an image without a raster is skipped; else it fails
/// while an image still owes many pixels (`EHasImageDesc`), with no color
/// map to use (`ENoColorMap`), or with a pixel count that does not fit in a
/// machine word (`EDataTooBig`); else the flag is set and no pixel is owed,
/// unless the image has no rows to write, when its pixel count is.
pub open spec fn spew_step(im: SavedImage, screen: Option<ColorMapObject>, in_image: bool, pc: int) -> Result<(bool, int), GifError> {
    let d = im.ImageDesc;
    if im.RasterBits@.len() == 0 {
        Ok((in_image, pc))
    } else if in_image && pc > 0xffff0000 {
        Err(GifError::EHasImageDesc)
    } else if d.ColorMap is None && screen is None {
        Err(GifError::ENoColorMap)
    } else if pixels_of(d.Width, d.Height) > usize::MAX {
        Err(GifError::EDataTooBig)
    } else if d.Width > 0 && d.Height > 0 {
        Ok((true, 0))
    } else {
        Ok((true, pixels_of(d.Width, d.Height)))
    }
}

/// `spew_step` over each of `images` in turn, up to the first error.
pub open spec fn spew_state(images: Seq<SavedImage>, screen: Option<ColorMapObject>, in_image: bool, pc: int) -> Result<(bool, int), GifError>
    decreases images.len(),
{
    if images.len() == 0 {
        Ok((in_image, pc))
    } else {
        match spew_state(images.drop_last(), screen, in_image, pc) {
            Err(e) => Err(e),
            Ok((ii, p)) => spew_step(images.last(), screen, ii, p),
        }
    }
}

/// The images of `images` that have a raster, in order.
pub open spec fn with_raster(images: Seq<SavedImage>) -> Seq<SavedImage>
    decreases images.len(),
{
    if images.len() == 0 {
        images
    } else if images.last().RasterBits@.len() > 0 {
        with_raster(images.drop_last()).push(images.last())
    } else {
        with_raster(images.drop_last())
    }
}

/// Images without a raster are skipped: writing the in-core images gives the
/// same bytes, and ends in the same state or error, as writing only those
/// with a raster (so they may stand anywhere among the images).
pub proof fn lemma_spew_skips_empty(
    buf: Seq<u8>,
    out: Seq<u8>,
    images: Seq<SavedImage>,
    screen: Option<ColorMapObject>,
    in_image: bool,
    pc: int,
)
    ensures
        spew_images(buf, out, images, screen) == spew_images(buf, out, with_raster(images), screen),
        spew_state(images, screen, in_image, pc) == spew_state(with_raster(images), screen, in_image, pc),
    decreases images.len(),
{
    if images.len() > 0 {
        let rest = images.drop_last();
        lemma_spew_skips_empty(buf, out, rest, screen, in_image, pc);
        let f = with_raster(images);
        if images.last().RasterBits@.len() > 0 {
            assert(f.drop_last() =~= with_raster(rest));
            assert(f.last() == images.last());
        }
    }
}

/// An error in writing the first images is the error of writing them all.
proof fn lemma_spew_state_err(images: Seq<SavedImage>, screen: Option<ColorMapObject>, in_image: bool, pc: int, k: int, e: GifError)
    requires
        0 <= k <= images.len(),
        spew_state(images.take(k), screen, in_image, pc) == Err::<(bool, int), GifError>(e),
    ensures
        spew_state(images, screen, in_image, pc) == Err::<(bool, int), GifError>(e),
    decreases images.len() - k,
{
    if k < images.len() {
        let t = images.take(k + 1);
        assert(t.drop_last() =~= images.take(k));
        lemma_spew_state_err(images, screen, in_image, pc, k + 1, e);
    } else {
        assert(images.take(k) =~= images);
    }
}

/// Write one saved image; an image without a raster is skipped.
fn spew_one_image(gif: &mut GifFileType, im: &SavedImage) -> (r: Result<(), GifError>)
    requires
        old(gif).wf(),
        old(gif).writable(),
        spew_image_ok(*im, old(gif).SColorMap),
    ensures
        final(gif).wf(),
        final(gif).writable(),
        final(gif).SColorMap == old(gif).SColorMap,
        final(gif).SavedImages == old(gif).SavedImages,
        final(gif).ExtensionBlocks == old(gif).ExtensionBlocks,
        final(gif).SWidth == old(gif).SWidth,
        final(gif).SHeight == old(gif).SHeight,
        final(gif).SColorResolution == old(gif).SColorResolution,
        final(gif).SBackGroundColor == old(gif).SBackGroundColor,
        final(gif).AspectByte == old(gif).AspectByte,
        final(gif).Private.screen_desc_written == old(gif).Private.screen_desc_written,
        final(gif).input() == old(gif).input(),
        im.RasterBits@.len() == 0 ==> r is Ok && *final(gif) == *old(gif),
        match spew_step(*im, old(gif).SColorMap, old(gif).Private.in_image, old(gif).Private.pixel_count as int) {
            Err(e) => r == Err::<(), GifError>(e),
            Ok((ii, pc)) => {
                &&& r is Ok
                &&& final(gif).Private.in_image == ii
                &&& final(gif).Private.pixel_count == pc
                &&& (final(gif).Private.lzw.buf@, final(gif).output()) == spew_image(
                    old(gif).Private.lzw.buf@,
                    old(gif).output(),
                    *im,
                    old(gif).SColorMap,
                )
            },
        },
{
    if im.RasterBits.len() == 0 {
        return Ok(());
    }
    let ghost g0 = *gif;
    if let Err(e) = egif_write_extensions(gif, im.extension_blocks()) {
        return Err(e);
    }
    let d = &im.ImageDesc;
    let ghost g1 = *gif;
    let cm = d.ColorMap.as_ref();
    if let Err(e) = egif_put_image_desc(gif, d.Left, d.Top, d.Width, d.Height, d.Interlace, cm) {
        return Err(e);
    }
    let ghost g_desc = *gif;
    let ghost b = code_size(coding_bpp(*gif)->0) as int;
    let ghost e0 = enc_view(*gif);
    proof {
        assert(opt_map(cm) == d.ColorMap);
        assert(b == coded_bpp(*im, g0.SColorMap));
        assert(e0 == EncView {
            pack: put_code(fresh_packer(g0.Private.lzw.buf@, g1.output() + image_desc_bytes(
                d.Left, d.Top, d.Width, d.Height, d.Interlace, d.ColorMap), b), pow2_bits(b)),
            crnt: FIRST_CODE,
            dict: Map::empty(),
        });
    }
    proof {
        assert(g1.Private.in_image == g0.Private.in_image);
        assert(g1.Private.pixel_count == g0.Private.pixel_count);
        assert(g1.output() == g0.output() + ext_blocks_bytes(im.ExtensionBlocks@, im.ExtensionBlocks@.len() as int));
    }
    if d.Height <= 0 || d.Width <= 0 {
        proof {
            assert(image_pixels(*im, b).len() == 0);
            assert(image_end(e0, b, image_pixels(*im, b)) == e0);
            assert(gif.Private.pixel_count == pixels_of(d.Width, d.Height));
            assert(gif.Private.in_image);
            assert((gif.Private.lzw.buf@, gif.output()) == (e0.pack.buf, e0.pack.out));
        }
        return Ok(());
    }
    let h = d.Height as usize;
    let w = d.Width as usize;
    let ghost order = row_order(h as int, d.Interlace);
    proof {
        lemma_row_order_len(h as int, d.Interlace);
    }
    let raster = im.raster_bits();
    let mut line_buf = crate::file::filled_u8(w, 0);
    proof {
        assert(h * w == d.Width * d.Height) by (nonlinear_arith)
            requires h == d.Height, w == d.Width;
        assert(w * (h - 0) == pixels_of(d.Width, d.Height)) by (nonlinear_arith)
            requires h == d.Height, w == d.Width, pixels_of(d.Width, d.Height) == (d.Width as usize) as int * (d.Height as usize) as int;
        assert(with_pixels_owed(g_desc, gif.Private.pixel_count) == g_desc);
        assert(rows_progress(*gif, g_desc, e0, b, raster@, w as int, h as int, Seq::<int>::empty()));
    }
    if d.Interlace {
        let ghost r0 = Seq::<int>::empty();
        if let Err(e) = put_pass(gif, raster, w, h, 0, 8, &mut line_buf, Ghost(g_desc), Ghost(e0), Ghost(b), Ghost(r0)) {
            return Err(e);
        }
        let ghost r1 = r0 + pass_rows(0, 8, h as int);
        if let Err(e) = put_pass(gif, raster, w, h, 4, 8, &mut line_buf, Ghost(g_desc), Ghost(e0), Ghost(b), Ghost(r1)) {
            return Err(e);
        }
        let ghost r2 = r1 + pass_rows(4, 8, h as int);
        if let Err(e) = put_pass(gif, raster, w, h, 2, 4, &mut line_buf, Ghost(g_desc), Ghost(e0), Ghost(b), Ghost(r2)) {
            return Err(e);
        }
        let ghost r3 = r2 + pass_rows(2, 4, h as int);
        if let Err(e) = put_pass(gif, raster, w, h, 1, 2, &mut line_buf, Ghost(g_desc), Ghost(e0), Ghost(b), Ghost(r3)) {
            return Err(e);
        }
        proof {
            assert(r3 + pass_rows(1, 2, h as int) =~= order);
        }
    } else {
        let ghost r0 = Seq::<int>::empty();
        if let Err(e) = put_pass(gif, raster, w, h, 0, 1, &mut line_buf, Ghost(g_desc), Ghost(e0), Ghost(b), Ghost(r0)) {
            return Err(e);
        }
        proof {
            assert(r0 + pass_rows(0, 1, h as int) =~= order);
        }
    }
    proof {
        lemma_gather_len(raster@, w as int, h as int, order);
        assert(order.len() * w > 0) by (nonlinear_arith)
            requires order.len() == h, h > 0, w > 0;
        assert(w * (h - order.len()) == 0);
        assert(image_pixels(*im, b) == masked(gather_rows(raster@, w as int, order), b));
        assert(image_pixels(*im, b).len() > 0);
    }
    Ok(())
}

/// The bytes of a whole GIF written from the in-core images and extensions
/// of `g`: the signature, the screen descriptor and global color map, each
/// image with a raster, and the extension blocks past the last image.
pub open spec fn spew_bytes(g: GifFileType) -> Seq<u8> {
    let out1 = g.output() + version_stamp(needs_gif89(g)) + screen_desc_bytes(
        g.SWidth,
        g.SHeight,
        g.SColorResolution,
        g.SBackGroundColor,
        g.AspectByte,
        g.SColorMap,
    );
    let (buf, out2) = spew_images(g.Private.lzw.buf@, out1, g.SavedImages@, g.SColorMap);
    out2 + ext_blocks_bytes(g.ExtensionBlocks@, g.ExtensionBlocks@.len() as int)
}

/// Writing an image only appends to the output.
proof fn lemma_spew_image_out(buf: Seq<u8>, out: Seq<u8>, im: SavedImage, screen: Option<ColorMapObject>)
    ensures
        starts_with(spew_image(buf, out, im, screen).1, out),
{
    if im.RasterBits@.len() == 0 {
        assert(out.subrange(0, out.len() as int) =~= out);
    } else {
        let d = im.ImageDesc;
        let out1 = out + ext_blocks_bytes(im.ExtensionBlocks@, im.ExtensionBlocks@.len() as int) + image_desc_bytes(
            d.Left, d.Top, d.Width, d.Height, d.Interlace, d.ColorMap);
        let b = coded_bpp(im, screen);
        let f = fresh_packer(buf, out1, b);
        let e0 = EncView { pack: put_code(f, pow2_bits(b)), crnt: FIRST_CODE, dict: Map::empty() };
        assert(out1.subrange(0, out.len() as int) =~= out);
        assert(f.out.subrange(0, out1.len() as int) =~= out1);
        lemma_starts_with_trans(f.out, out1, out);
        lemma_put_code_out(f, pow2_bits(b));
        lemma_starts_with_trans(e0.pack.out, f.out, out);
        let px = image_pixels(im, b);
        if px.len() > 0 {
            lemma_compress_line_out(e0, pow2_bits(b), pow2_bits(b) + 1, b, px, true);
            lemma_starts_with_trans(image_end(e0, b, px).pack.out, e0.pack.out, out);
        }
    }
}

/// Writing images only appends to the output.
proof fn lemma_spew_images_out(buf: Seq<u8>, out: Seq<u8>, images: Seq<SavedImage>, screen: Option<ColorMapObject>)
    ensures
        starts_with(spew_images(buf, out, images, screen).1, out),
    decreases images.len(),
{
    if images.len() == 0 {
        assert(out.subrange(0, out.len() as int) =~= out);
    } else {
        lemma_spew_images_out(buf, out, images.drop_last(), screen);
        let (b, o) = spew_images(buf, out, images.drop_last(), screen);
        lemma_spew_image_out(b, o, images.last(), screen);
        lemma_starts_with_trans(spew_image(b, o, images.last(), screen).1, o, out);
    }
}

/// The version a whole GIF is written with: GIF89a exactly when GIF89 was
/// asked for, or an image or the screen carries an extension block of a
/// kind that only GIF89 knows (comment 0xFE, graphics control 0xF9, plain
/// text 0x01, application 0xFF); GIF87a otherwise. The stamp comes right
/// after what was written before.
pub proof fn lemma_spew_version(g: GifFileType)
    ensures
        needs_gif89(g) <==> (g.Private.gif89
            || (exists|i: int, j: int| 0 <= i < g.SavedImages@.len() && 0 <= j < g.SavedImages@[i].ExtensionBlocks@.len()
                && ({
                    let f = #[trigger] g.SavedImages@[i].ExtensionBlocks@[j].Function;
                    f == 0xFE || f == 0xF9 || f == 0x01 || f == 0xFF
                }))
            || (exists|j: int| 0 <= j < g.ExtensionBlocks@.len()
                && ({
                    let f = #[trigger] g.ExtensionBlocks@[j].Function;
                    f == 0xFE || f == 0xF9 || f == 0x01 || f == 0xFF
                }))),
        spew_bytes(g).len() >= g.output().len() + 6,
        spew_bytes(g).subrange(g.output().len() as int, g.output().len() as int + 6) == (if needs_gif89(g) {
            seq![0x47u8, 0x49, 0x46, 0x38, 0x39, 0x61]
        } else {
            seq![0x47u8, 0x49, 0x46, 0x38, 0x37, 0x61]
        }),
{
    let n = g.output().len() as int;
    let stamp = version_stamp(needs_gif89(g));
    let out1 = g.output() + stamp + screen_desc_bytes(g.SWidth, g.SHeight, g.SColorResolution, g.SBackGroundColor,
        g.AspectByte, g.SColorMap);
    lemma_spew_images_out(g.Private.lzw.buf@, out1, g.SavedImages@, g.SColorMap);
    let out2 = spew_images(g.Private.lzw.buf@, out1, g.SavedImages@, g.SColorMap).1;
    let all = out2 + ext_blocks_bytes(g.ExtensionBlocks@, g.ExtensionBlocks@.len() as int);
    assert(all.subrange(0, out2.len() as int) =~= out2);
    lemma_starts_with_trans(all, out2, out1);
    assert(out1.subrange(n, n + 6) =~= stamp);
    assert(all.subrange(n, n + 6) =~= out1.subrange(n, n + 6)) by {
        assert(all.subrange(0, out1.len() as int) == out1);
        assert forall|k: int| 0 <= k < 6 implies #[trigger] all.subrange(n, n + 6)[k] == out1.subrange(n, n + 6)[k] by {
            assert(all.subrange(0, out1.len() as int)[n + k] == all[n + k]);
        }
    }
    assert(gif89_stamp() =~= seq![0x47u8, 0x49, 0x46, 0x38, 0x39, 0x61]);
    assert(gif87_stamp() =~= seq![0x47u8, 0x49, 0x46, 0x38, 0x37, 0x61]);
    if needs_gif89(g) && !g.Private.gif89 {
        if exists|i: int| 0 <= i < g.SavedImages@.len() && #[trigger] blocks_need_gif89(g.SavedImages@[i].ExtensionBlocks@) {
            let i = choose|i: int| 0 <= i < g.SavedImages@.len() && #[trigger] blocks_need_gif89(g.SavedImages@[i].ExtensionBlocks@);
            let bs = g.SavedImages@[i].ExtensionBlocks@;
            let j = choose|j: int| 0 <= j < bs.len() && #[trigger] ext_needs_gif89(bs[j].Function);
            let f = g.SavedImages@[i].ExtensionBlocks@[j].Function;
            assert(f == 0xFE || f == 0xF9 || f == 0x01 || f == 0xFF);
        } else {
            let bs = g.ExtensionBlocks@;
            let j = choose|j: int| 0 <= j < bs.len() && #[trigger] ext_needs_gif89(bs[j].Function);
            let f = g.ExtensionBlocks@[j].Function;
            assert(f == 0xFE || f == 0xF9 || f == 0x01 || f == 0xFF);
        }
    }
    assert((exists|i: int, j: int| 0 <= i < g.SavedImages@.len() && 0 <= j < g.SavedImages@[i].ExtensionBlocks@.len()
        && ({
            let f = #[trigger] g.SavedImages@[i].ExtensionBlocks@[j].Function;
            f == 0xFE || f == 0xF9 || f == 0x01 || f == 0xFF
        })) ==> needs_gif89(g)) by {
        if exists|i: int, j: int| 0 <= i < g.SavedImages@.len() && 0 <= j < g.SavedImages@[i].ExtensionBlocks@.len()
            && ({
                let f = #[trigger] g.SavedImages@[i].ExtensionBlocks@[j].Function;
                f == 0xFE || f == 0xF9 || f == 0x01 || f == 0xFF
            }) {
            let (i, j) = choose|i: int, j: int| 0 <= i < g.SavedImages@.len() && 0 <= j < g.SavedImages@[i].ExtensionBlocks@.len()
                && ({
                    let f = #[trigger] g.SavedImages@[i].ExtensionBlocks@[j].Function;
                    f == 0xFE || f == 0xF9 || f == 0x01 || f == 0xFF
                });
            assert(ext_needs_gif89(g.SavedImages@[i].ExtensionBlocks@[j].Function));
            assert(blocks_need_gif89(g.SavedImages@[i].ExtensionBlocks@));
        }
    }
    assert((exists|j: int| 0 <= j < g.ExtensionBlocks@.len()
        && ({
            let f = #[trigger] g.ExtensionBlocks@[j].Function;
            f == 0xFE || f == 0xF9 || f == 0x01 || f == 0xFF
        })) ==> needs_gif89(g)) by {
        if exists|j: int| 0 <= j < g.ExtensionBlocks@.len()
            && ({
                let f = #[trigger] g.ExtensionBlocks@[j].Function;
                f == 0xFE || f == 0xF9 || f == 0x01 || f == 0xFF
            }) {
            let j = choose|j: int| 0 <= j < g.ExtensionBlocks@.len()
                && ({
                    let f = #[trigger] g.ExtensionBlocks@[j].Function;
                    f == 0xFE || f == 0xF9 || f == 0x01 || f == 0xFF
                });
            assert(ext_needs_gif89(g.ExtensionBlocks@[j].Function));
        }
    }
}

/// Write the whole in-core GIF (see `spew_bytes`), leaving out the
/// trailer. Fails as `egif_put_screen_desc` does, then at the first image
/// that cannot be written (`spew_state`): one with a raster following one
/// still owing many pixels (`EHasImageDesc`), with no color map at all
/// (`ENoColorMap`), or with a pixel count beyond a machine word
/// (`EDataTooBig`).
pub fn egif_spew(gif: &mut GifFileType) -> (r: Result<(), GifError>)
    requires
        old(gif).wf(),
        !old(gif).Private.screen_desc_written && old(gif).writable() ==> {
            &&& old(gif).SColorResolution > i32::MIN
            &&& writable_map(old(gif).SColorMap)
            &&& forall|i: int| 0 <= i < old(gif).SavedImages@.len() ==> #[trigger] spew_image_ok(
                old(gif).SavedImages@[i],
                old(gif).SColorMap,
            )
        },
    ensures
        final(gif).wf(),
        final(gif).SWidth == old(gif).SWidth,
        final(gif).SHeight == old(gif).SHeight,
        final(gif).SColorResolution == old(gif).SColorResolution,
        final(gif).SBackGroundColor == old(gif).SBackGroundColor,
        final(gif).AspectByte == old(gif).AspectByte,
        final(gif).SColorMap == old(gif).SColorMap,
        final(gif).SavedImages@ == old(gif).SavedImages@,
        final(gif).ExtensionBlocks@ == old(gif).ExtensionBlocks@,
        old(gif).Private.screen_desc_written ==> r == Err::<(), GifError>(GifError::EHasScreenDesc),
        !old(gif).Private.screen_desc_written && !old(gif).writable() ==> r == Err::<(), GifError>(
            GifError::ENotWriteable),
        !old(gif).Private.screen_desc_written && old(gif).writable() ==> ({
            let st = spew_state(old(gif).SavedImages@, old(gif).SColorMap, old(gif).Private.in_image,
                old(gif).Private.pixel_count as int);
            &&& st matches Err(e) ==> r == Err::<(), GifError>(e)
            &&& r is Ok <==> st is Ok
            &&& r is Ok ==> final(gif).output() == spew_bytes(*old(gif))
        }),
{
    let screen_map = gif.SColorMap.take();
    let ghost g_taken = *gif;
    let sm = screen_map.as_ref();
    let result = egif_put_screen_desc(
        gif,
        gif.SWidth,
        gif.SHeight,
        gif.SColorResolution,
        gif.SBackGroundColor,
        sm,
    );
    gif.SColorMap = screen_map;
    if let Err(e) = result {
        return Err(e);
    }
    let ghost g0 = *old(gif);
    let ghost out1 = gif.output();
    let ghost screen = g0.SColorMap;
    proof {
        assert(opt_map(sm) == screen);
        assert(needs_gif89(g_taken) == needs_gif89(g0));
        assert(out1 == g0.output() + version_stamp(needs_gif89(g0)) + screen_desc_bytes(
            g0.SWidth, g0.SHeight, g0.SColorResolution, g0.SBackGroundColor, g0.AspectByte, screen));
    }
    let mut images: Vec<SavedImage> = Vec::new();
    std::mem::swap(&mut images, &mut gif.SavedImages);
    let n = images.len();
    let mut i: usize = 0;
    assert(images@.take(0) =~= Seq::<SavedImage>::empty());
    while i < n
        invariant
            n == images@.len(),
            images@ == g0.SavedImages@,
            i <= n,
            g0 == *old(gif),
            !g0.Private.screen_desc_written,
            g0.writable(),
            gif.ExtensionBlocks == g0.ExtensionBlocks,
            gif.SWidth == g0.SWidth,
            gif.SHeight == g0.SHeight,
            gif.SColorResolution == g0.SColorResolution,
            gif.SBackGroundColor == g0.SBackGroundColor,
            gif.AspectByte == g0.AspectByte,
            gif.wf(),
            gif.writable(),
            gif.SColorMap == screen,
            screen == g0.SColorMap,
            forall|k: int| 0 <= k < images@.len() ==> #[trigger] spew_image_ok(images@[k], screen),
            (gif.Private.lzw.buf@, gif.output()) == spew_images(g0.Private.lzw.buf@, out1, images@.take(i as int), screen),
            spew_state(images@.take(i as int), screen, g0.Private.in_image, g0.Private.pixel_count as int)
                == Ok::<(bool, int), GifError>((gif.Private.in_image, gif.Private.pixel_count as int)),
        decreases n - i,
    {
        let ghost before = *gif;
        let res = spew_one_image(gif, &images[i]);
        proof {
            let t = images@.take(i as int);
            let t1 = images@.take(i + 1);
            assert(t1.drop_last() =~= t);
            assert(t1.last() == images@[i as int]);
        }
        if let Err(e) = res {
            proof {
                lemma_spew_state_err(images@, screen, g0.Private.in_image, g0.Private.pixel_count as int, i + 1, e);
            }
            std::mem::swap(&mut images, &mut gif.SavedImages);
            return Err(e);
        }
        i = i + 1;
    }
    proof {
        assert(images@.take(n as int) =~= images@);
    }
    std::mem::swap(&mut images, &mut gif.SavedImages);
    let mut trailing: Vec<ExtensionBlock> = Vec::new();
    std::mem::swap(&mut trailing, &mut gif.ExtensionBlocks);
    let res = egif_write_extensions(gif, trailing.as_slice());
    std::mem::swap(&mut trailing, &mut gif.ExtensionBlocks);
    res
}

} // verus!

//! In-core GIF records: image descriptors, extension blocks and saved images.
use vstd::prelude::*;
use crate::colormap::ColorMapObject;

verus! {

/// The record kinds of a GIF stream.
#[derive(Debug, Clone, Copy, PartialEq, Eq, Structural)]
pub enum GifRecordType {
    UNDEFINED_RECORD_TYPE,
    SCREEN_DESC_RECORD_TYPE,
    IMAGE_DESC_RECORD_TYPE,
    EXTENSION_RECORD_TYPE,
    TERMINATE_RECORD_TYPE,
}

/// Position, size, interlacing and local color map of an image.
#[derive(Debug)]
pub struct GifImageDesc {
    pub Left: i32,
    pub Top: i32,
    pub Width: i32,
    pub Height: i32,
    pub Interlace: bool,
    pub ColorMap: Option<ColorMapObject>,
}

/// One data sub-block of an extension, with the extension's function code
/// (`CONTINUE_EXT_FUNC_CODE` for sub-blocks after the first).
#[derive(Debug)]
pub struct ExtensionBlock {
    pub ByteCount: i32,
    pub Bytes: Vec<u8>,
    pub Function: i32,
}

/// An image read from or to be written to a GIF stream. An empty raster
/// stands for an image without pixels.
#[derive(Debug)]
pub struct SavedImage {
    pub ImageDesc: GifImageDesc,
    pub RasterBits: Vec<u8>,
    pub ExtensionBlocks: Vec<ExtensionBlock>,
}

/// A copy of an optional color map.
pub fn duplicate_color_map(m: &Option<ColorMapObject>) -> (r: Option<ColorMapObject>)
    ensures
        r is Some <==> m is Some,
        r matches Some(c) ==> {
            &&& c.ColorCount == m->0.ColorCount
            &&& c.BitsPerPixel == m->0.BitsPerPixel
            &&& c.SortFlag == m->0.SortFlag
            &&& c.Colors@ == m->0.Colors@
        },
{
    match m {
        Some(c) => Some(c.duplicate()),
        None => None,
    }
}

/// The two descriptors agree, color maps compared by their contents.
pub open spec fn same_desc(a: GifImageDesc, b: GifImageDesc) -> bool {
    &&& a.Left == b.Left
    &&& a.Top == b.Top
    &&& a.Width == b.Width
    &&& a.Height == b.Height
    &&& a.Interlace == b.Interlace
    &&& a.ColorMap is Some <==> b.ColorMap is Some
    &&& a.ColorMap is Some ==> {
        &&& a.ColorMap->0.ColorCount == b.ColorMap->0.ColorCount
        &&& a.ColorMap->0.BitsPerPixel == b.ColorMap->0.BitsPerPixel
        &&& a.ColorMap->0.SortFlag == b.ColorMap->0.SortFlag
        &&& a.ColorMap->0.Colors@ == b.ColorMap->0.Colors@
    }
}

impl GifImageDesc {
    /// A descriptor with every field zero and no color map.
    pub fn empty() -> (r: GifImageDesc)
        ensures
            r.Left == 0 && r.Top == 0 && r.Width == 0 && r.Height == 0,
            !r.Interlace,
            r.ColorMap is None,
    {
        GifImageDesc { Left: 0, Top: 0, Width: 0, Height: 0, Interlace: false, ColorMap: None }
    }

    /// A copy of the descriptor.
    pub fn duplicate(&self) -> (r: GifImageDesc)
        ensures
            same_desc(r, *self),
    {
        GifImageDesc {
            Left: self.Left,
            Top: self.Top,
            Width: self.Width,
            Height: self.Height,
            Interlace: self.Interlace,
            ColorMap: duplicate_color_map(&self.ColorMap),
        }
    }
}

impl ExtensionBlock {
    /// A block holding a copy of `data`, with the given function code.
    pub fn new(function: i32, data: &[u8]) -> (r: ExtensionBlock)
        requires
            data@.len() <= i32::MAX,
        ensures
            r.Function == function,
            r.Bytes@ == data@,
            r.ByteCount == data@.len(),
    {
        let bytes = crate::colormap::slice_to_vec(data);
        ExtensionBlock { Function: function, ByteCount: data.len() as i32, Bytes: bytes }
    }

    /// The data bytes of the block.
    pub fn bytes(&self) -> (r: &[u8])
        ensures
            r@ == self.Bytes@,
    {
        self.Bytes.as_slice()
    }

    /// The data bytes of the block, to change in place.
    pub fn bytes_mut(&mut self) -> (r: &mut [u8])
        ensures
            r@ == old(self).Bytes@,
            final(self).Bytes@ == final(r)@,
            final(self).ByteCount == old(self).ByteCount,
            final(self).Function == old(self).Function,
    {
        self.Bytes.as_mut_slice()
    }

    /// A copy of the block.
    pub fn duplicate(&self) -> (r: ExtensionBlock)
        ensures
            r.Function == self.Function,
            r.ByteCount == self.ByteCount,
            r.Bytes@ == self.Bytes@,
    {
        let b = self.Bytes.clone();
        assert(b@ =~= self.Bytes@);
        ExtensionBlock { ByteCount: self.ByteCount, Bytes: b, Function: self.Function }
    }
}

/// `w * h` when both are in `1..=65535` and the product fits in an `i32`.
pub open spec fn spec_image_size(w: i32, h: i32) -> Option<i32> {
    if 1 <= w <= 65535 && 1 <= h <= 65535 && w * h <= i32::MAX {
        Some((w * h) as i32)
    } else {
        None
    }
}

impl SavedImage {
    /// An image with the given descriptor, no pixels and no extension blocks.
    pub fn new(desc: GifImageDesc) -> (r: SavedImage)
        ensures
            r.ImageDesc == desc,
            r.RasterBits@.len() == 0,
            r.ExtensionBlocks@.len() == 0,
    {
        SavedImage { ImageDesc: desc, RasterBits: Vec::new(), ExtensionBlocks: Vec::new() }
    }

    /// The number of pixels of the image, or `None` when its dimensions are
    /// outside `1..=65535` or their product does not fit in an `i32`.
    pub fn size(&self) -> (r: Option<i32>)
        ensures
            r == spec_image_size(self.ImageDesc.Width, self.ImageDesc.Height),
    {
        let w = self.ImageDesc.Width;
        let h = self.ImageDesc.Height;
        if 1 <= w && w <= 65535 && 1 <= h && h <= 65535 {
            w.checked_mul(h)
        } else {
            None
        }
    }

    /// The pixels of the image.
    pub fn raster_bits(&self) -> (r: &[u8])
        ensures
            r@ == self.RasterBits@,
    {
        self.RasterBits.as_slice()
    }

    /// The pixels of the image, to change in place.
    pub fn raster_bits_mut(&mut self) -> (r: &mut [u8])
        ensures
            r@ == old(self).RasterBits@,
            final(self).RasterBits@ == final(r)@,
            final(self).ImageDesc == old(self).ImageDesc,
            final(self).ExtensionBlocks == old(self).ExtensionBlocks,
    {
        self.RasterBits.as_mut_slice()
    }

    /// The bounds `(start, end)` within the raster of pixel row `row`, or
    /// `None` when the row does not lie within the raster.
    pub fn raster_bits_row_mut(&self, row: usize) -> (r: Option<(usize, usize)>)
        ensures
            match r {
                Some((s, e)) => {
                    &&& 0 <= self.ImageDesc.Width
                    &&& s == row * self.ImageDesc.Width
                    &&& e == s + self.ImageDesc.Width
                    &&& e <= self.RasterBits@.len()
                },
                None => !(0 <= self.ImageDesc.Width && row * self.ImageDesc.Width
                    + self.ImageDesc.Width <= self.RasterBits@.len()),
            },
    {
        let len = self.RasterBits.len();
        let w = self.ImageDesc.Width;
        if w < 0 {
            return None;
        }
        let w = w as usize;
        let ghost width = self.ImageDesc.Width as int;
        assert(w as int == width);
        let start = match row.checked_mul(w) {
            Some(s) => s,
            None => {
                assert(row * width > usize::MAX);
                return None;
            },
        };
        assert(start as int == row * width);
        let end = match start.checked_add(w) {
            Some(e) => e,
            None => {
                assert(start + width > usize::MAX);
                return None;
            },
        };
        if end > len {
            return None;
        }
        Some((start, end))
    }

    /// The extension blocks attached to the image.
    pub fn extension_blocks(&self) -> (r: &[ExtensionBlock])
        ensures
            r@ == self.ExtensionBlocks@,
    {
        self.ExtensionBlocks.as_slice()
    }

    /// The extension blocks attached to the image, to change.
    pub fn extension_blocks_mut(&mut self) -> (r: &mut Vec<ExtensionBlock>)
        ensures
            *r == old(self).ExtensionBlocks,
            final(self).ExtensionBlocks == *final(r),
            final(self).ImageDesc == old(self).ImageDesc,
            final(self).RasterBits == old(self).RasterBits,
    {
        &mut self.ExtensionBlocks
    }

    /// Apply a color translation table to every pixel.
    pub fn apply_translation(&mut self, translation: &[u8; 256])
        ensures
            final(self).ImageDesc == old(self).ImageDesc,
            final(self).ExtensionBlocks == old(self).ExtensionBlocks,
            final(self).RasterBits@.len() == old(self).RasterBits@.len(),
            forall|i: int| 0 <= i < old(self).RasterBits@.len() ==> final(self).RasterBits@[i]
                == translation@[old(self).RasterBits@[i] as int],
    {
        let n = self.RasterBits.len();
        let mut i: usize = 0;
        while i < n
            invariant
                n == self.RasterBits@.len() == old(self).RasterBits@.len(),
                self.ImageDesc == old(self).ImageDesc,
                self.ExtensionBlocks == old(self).ExtensionBlocks,
                i <= n,
                forall|k: int| 0 <= k < i ==> self.RasterBits@[k] == translation@[old(self).RasterBits@[k] as int],
                forall|k: int| i <= k < n ==> self.RasterBits@[k] == old(self).RasterBits@[k],
            decreases n - i,
        {
            let p = self.RasterBits[i];
            self.RasterBits.set(i, translation[p as usize]);
            i = i + 1;
        }
    }
}

/// Two extension block lists hold the same blocks.
pub open spec fn same_blocks(a: Seq<ExtensionBlock>, b: Seq<ExtensionBlock>) -> bool {
    &&& a.len() == b.len()
    &&& forall|k: int| 0 <= k < a.len() ==> (#[trigger] a[k]).Function == b[k].Function
        && a[k].ByteCount == b[k].ByteCount && a[k].Bytes@ == b[k].Bytes@
}

/// A copy of a list of extension blocks.
pub fn duplicate_blocks(bs: &[ExtensionBlock]) -> (r: Vec<ExtensionBlock>)
    ensures
        same_blocks(r@, bs@),
{
    let mut r: Vec<ExtensionBlock> = Vec::new();
    let mut i: usize = 0;
    while i < bs.len()
        invariant
            i <= bs@.len(),
            r@.len() == i,
            forall|k: int| 0 <= k < i ==> (#[trigger] r@[k]).Function == bs@[k].Function
                && r@[k].ByteCount == bs@[k].ByteCount && r@[k].Bytes@ == bs@[k].Bytes@,
        decreases bs@.len() - i,
    {
        r.push(bs[i].duplicate());
        i = i + 1;
    }
    r
}

/// Append an extension block holding a copy of `data` to `blocks`.
pub fn add_extension_block(blocks: &mut Vec<ExtensionBlock>, function: i32, data: &[u8])
    requires
        data@.len() <= i32::MAX,
    ensures
        final(blocks)@.len() == old(blocks)@.len() + 1,
        final(blocks)@.subrange(0, old(blocks)@.len() as int) == old(blocks)@,
        final(blocks)@.last().Function == function,
        final(blocks)@.last().Bytes@ == data@,
        final(blocks)@.last().ByteCount == data@.len(),
{
    blocks.push(ExtensionBlock::new(function, data));
    assert(blocks@.subrange(0, old(blocks)@.len() as int) =~= old(blocks)@);
}

impl SavedImage {
    /// A copy of the image: descriptor, pixels and extension blocks.
    pub fn duplicate(&self) -> (r: SavedImage)
        ensures
            same_desc(r.ImageDesc, self.ImageDesc),
            r.RasterBits@ == self.RasterBits@,
            same_blocks(r.ExtensionBlocks@, self.ExtensionBlocks@),
    {
        let raster = crate::colormap::slice_to_vec(self.RasterBits.as_slice());
        SavedImage {
            ImageDesc: self.ImageDesc.duplicate(),
            RasterBits: raster,
            ExtensionBlocks: duplicate_blocks(self.ExtensionBlocks.as_slice()),
        }
    }
}

} // verus!

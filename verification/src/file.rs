//! The GIF handle: screen-level state, images, extension blocks, and the
//! private codec state with its byte source (decoding) or byte sink (encoding).
use vstd::prelude::*;
use crate::colormap::ColorMapObject;
use crate::constants::{GIF_ERROR, GIF_OK, LZ_MAX_CODE};
use crate::err::{GifError, error_code};
use crate::hash::GifHashTableType;
use crate::types::{ExtensionBlock, GifImageDesc, SavedImage};

verus! {

/// Where a handle's bytes come from or go to: the bytes still to be read
/// (from `data`, starting at `pos`), or the bytes written so far.
#[derive(Debug)]
pub enum IoState {
    Read { data: Vec<u8>, pos: usize },
    Write { out: Vec<u8> },
}

/// The state of the LZW compressor or decompressor.
#[derive(Debug)]
pub struct LzwState {
    pub bits_per_pixel: i32,
    pub clear_code: i32,
    pub eof_code: i32,
    pub running_code: i32,
    pub running_bits: i32,
    pub max_code1: i32,
    pub last_code: i32,
    pub crnt_code: i32,
    pub stack_ptr: i32,
    pub crnt_shift_state: i32,
    pub crnt_shift_dword: u64,
    /// Sub-block buffer: `buf[0]` holds a count, data follows.
    pub buf: Vec<u8>,
    pub stack: Vec<u8>,
    pub suffix: Vec<u8>,
    pub prefix: Vec<u32>,
    pub hash_table: Option<GifHashTableType>,
}

/// Codec state shared by the encoder and the decoder.
#[derive(Debug)]
pub struct GifFilePrivateType {
    pub pixel_count: usize,
    pub gif89: bool,
    /// Encoder: the screen descriptor has been written.
    pub screen_desc_written: bool,
    /// Encoder: an image descriptor has been written.
    pub in_image: bool,
    pub io: IoState,
    pub lzw: LzwState,
}

/// A GIF being decoded or encoded.
#[derive(Debug)]
pub struct GifFileType {
    pub SWidth: i32,
    pub SHeight: i32,
    pub SColorResolution: i32,
    pub SBackGroundColor: i32,
    pub AspectByte: u8,
    pub SColorMap: Option<ColorMapObject>,
    pub Image: GifImageDesc,
    pub SavedImages: Vec<SavedImage>,
    pub ExtensionBlocks: Vec<ExtensionBlock>,
    pub Error: i32,
    pub Private: GifFilePrivateType,
}

/// The bytes still to be read from a byte source (nothing for a sink).
pub open spec fn io_input(io: IoState) -> Seq<u8> {
    match io {
        IoState::Read { data, pos } => data@.subrange(pos as int, data@.len() as int),
        IoState::Write { .. } => Seq::empty(),
    }
}

/// The bytes written so far to a byte sink (nothing for a source).
pub open spec fn io_output(io: IoState) -> Seq<u8> {
    match io {
        IoState::Read { .. } => Seq::empty(),
        IoState::Write { out } => out@,
    }
}

pub open spec fn io_wf(io: IoState) -> bool {
    match io {
        IoState::Read { data, pos } => pos <= data@.len(),
        IoState::Write { .. } => true,
    }
}

/// `g` with its byte source or sink replaced by `io`.
pub open spec fn with_io(g: GifFileType, io: IoState) -> GifFileType {
    GifFileType { Private: GifFilePrivateType { io: io, ..g.Private }, ..g }
}

/// `a` and `b` differ at most in their byte source or sink.
pub open spec fn same_except_io(a: GifFileType, b: GifFileType) -> bool {
    a == with_io(b, a.Private.io)
}

/// `g` with its byte source or sink and its LZW state replaced.
pub open spec fn with_io_lzw(g: GifFileType, io: IoState, lzw: LzwState) -> GifFileType {
    GifFileType { Private: GifFilePrivateType { io: io, lzw: lzw, ..g.Private }, ..g }
}

/// `a` and `b` differ at most in their byte source or sink and LZW state.
pub open spec fn same_except_io_lzw(a: GifFileType, b: GifFileType) -> bool {
    a == with_io_lzw(b, a.Private.io, a.Private.lzw)
}

/// Differing only in the byte source or sink is transitive.
pub proof fn lemma_same_except_io_trans(a: GifFileType, b: GifFileType, c: GifFileType)
    requires
        same_except_io(a, b),
        same_except_io(b, c),
    ensures
        same_except_io(a, c),
{
    assert(a.Private == GifFilePrivateType { io: a.Private.io, ..c.Private });
}

/// Differing only in the byte source or sink and LZW state is transitive.
pub proof fn lemma_same_except_io_lzw_trans(a: GifFileType, b: GifFileType, c: GifFileType)
    requires
        same_except_io_lzw(a, b),
        same_except_io_lzw(b, c),
    ensures
        same_except_io_lzw(a, c),
{
    assert(a.Private == GifFilePrivateType { io: a.Private.io, lzw: a.Private.lzw, ..c.Private });
}

pub open spec fn min_nat(a: int, b: int) -> int {
    if a <= b { a } else { b }
}

/// Every field of the LZW state is zero and there is no hash table.
pub open spec fn lzw_zeroed(r: LzwState) -> bool {
    &&& r.wf()
    &&& r.hash_table is None
    &&& r.buf@ == Seq::new(256, |i: int| 0u8)
    &&& r.prefix@ == Seq::new((LZ_MAX_CODE + 1) as nat, |i: int| 0u32)
    &&& r.stack@ == Seq::new((LZ_MAX_CODE + 1) as nat, |i: int| 0u8)
    &&& r.suffix@ == Seq::new((LZ_MAX_CODE + 1) as nat, |i: int| 0u8)
    &&& r.bits_per_pixel == 0 && r.clear_code == 0 && r.eof_code == 0
    &&& r.running_code == 0 && r.running_bits == 0 && r.max_code1 == 0
    &&& r.last_code == 0 && r.crnt_code == 0 && r.stack_ptr == 0
    &&& r.crnt_shift_state == 0 && r.crnt_shift_dword == 0
}

impl LzwState {
    /// The buffers have their sizes.
    pub open spec fn wf(&self) -> bool {
        &&& self.buf@.len() == 256
        &&& self.stack@.len() == LZ_MAX_CODE + 1
        &&& self.suffix@.len() == LZ_MAX_CODE + 1
        &&& self.prefix@.len() == LZ_MAX_CODE + 1
        &&& self.hash_table matches Some(ht) ==> ht.wf()
    }

    /// A zeroed state.
    pub fn new() -> (r: LzwState)
        ensures
            lzw_zeroed(r),
    {
        LzwState {
            bits_per_pixel: 0,
            clear_code: 0,
            eof_code: 0,
            running_code: 0,
            running_bits: 0,
            max_code1: 0,
            last_code: 0,
            crnt_code: 0,
            stack_ptr: 0,
            crnt_shift_state: 0,
            crnt_shift_dword: 0,
            buf: filled_u8(256, 0),
            stack: filled_u8(LZ_MAX_CODE + 1, 0),
            suffix: filled_u8(LZ_MAX_CODE + 1, 0),
            prefix: filled_u32(LZ_MAX_CODE + 1, 0),
            hash_table: None,
        }
    }
}

/// A vector of `n` copies of `v`.
pub fn filled_u8(n: usize, v: u8) -> (r: Vec<u8>)
    ensures
        r@ == Seq::new(n as nat, |i: int| v),
{
    let mut r: Vec<u8> = Vec::new();
    let mut i: usize = 0;
    while i < n
        invariant
            i <= n,
            r@ == Seq::new(i as nat, |k: int| v),
        decreases n - i,
    {
        r.push(v);
        i = i + 1;
        assert(r@ =~= Seq::new(i as nat, |k: int| v));
    }
    r
}

/// A vector of `n` copies of `v`.
pub fn filled_u32(n: usize, v: u32) -> (r: Vec<u32>)
    ensures
        r@ == Seq::new(n as nat, |i: int| v),
{
    let mut r: Vec<u32> = Vec::new();
    let mut i: usize = 0;
    while i < n
        invariant
            i <= n,
            r@ == Seq::new(i as nat, |k: int| v),
        decreases n - i,
    {
        r.push(v);
        i = i + 1;
        assert(r@ =~= Seq::new(i as nat, |k: int| v));
    }
    r
}

impl GifFilePrivateType {
    /// Fresh codec state over the given byte source or sink.
    pub fn new(io: IoState) -> (r: GifFilePrivateType)
        ensures
            r.io == io,
            r.pixel_count == 0,
            !r.gif89 && !r.screen_desc_written && !r.in_image,
            lzw_zeroed(r.lzw),
    {
        GifFilePrivateType {
            pixel_count: 0,
            gif89: false,
            screen_desc_written: false,
            in_image: false,
            io,
            lzw: LzwState::new(),
        }
    }
}

impl GifFileType {
    /// The bytes still to be read.
    pub open spec fn input(&self) -> Seq<u8> {
        io_input(self.Private.io)
    }

    /// The bytes written so far.
    pub open spec fn output(&self) -> Seq<u8> {
        io_output(self.Private.io)
    }

    pub open spec fn readable(&self) -> bool {
        self.Private.io is Read
    }

    pub open spec fn writable(&self) -> bool {
        self.Private.io is Write
    }

    /// The handle's internal buffers have their sizes, a handle opened for
    /// reading keeps the decompressor's state within its ranges, and one
    /// opened for writing keeps the compressor's.
    pub open spec fn wf(&self) -> bool {
        &&& io_wf(self.Private.io)
        &&& self.Private.lzw.wf()
        &&& self.readable() ==> crate::decoder_lzw::decoder_ready(self.Private.lzw)
        &&& self.writable() ==> crate::encoder_lzw::encoder_ready(self.Private)
    }

    /// A zeroed handle with the given private state.
    pub fn new(private: GifFilePrivateType) -> (r: GifFileType)
        ensures
            r.Private == private,
            r.SWidth == 0 && r.SHeight == 0 && r.SColorResolution == 0 && r.SBackGroundColor == 0,
            r.AspectByte == 0,
            r.SColorMap is None,
            r.Image.Left == 0 && r.Image.Top == 0 && r.Image.Width == 0 && r.Image.Height == 0,
            !r.Image.Interlace && r.Image.ColorMap is None,
            r.SavedImages@.len() == 0,
            r.ExtensionBlocks@.len() == 0,
            r.Error == 0,
    {
        GifFileType {
            SWidth: 0,
            SHeight: 0,
            SColorResolution: 0,
            SBackGroundColor: 0,
            AspectByte: 0,
            SColorMap: None,
            Image: GifImageDesc::empty(),
            SavedImages: Vec::new(),
            ExtensionBlocks: Vec::new(),
            Error: 0,
            Private: private,
        }
    }

    /// The images read or to be written.
    pub fn saved_images(&self) -> (r: &[SavedImage])
        ensures
            r@ == self.SavedImages@,
    {
        self.SavedImages.as_slice()
    }

    /// The extension blocks not attached to any image.
    pub fn extension_blocks(&self) -> (r: &[ExtensionBlock])
        ensures
            r@ == self.ExtensionBlocks@,
    {
        self.ExtensionBlocks.as_slice()
    }

    /// The images read or to be written, to change.
    pub fn saved_images_mut(&mut self) -> (r: &mut Vec<SavedImage>)
        ensures
            *r == old(self).SavedImages,
            *final(self) == (GifFileType { SavedImages: *final(r), ..*old(self) }),
    {
        &mut self.SavedImages
    }

    /// The extension blocks not attached to any image, to change.
    pub fn extension_blocks_mut(&mut self) -> (r: &mut Vec<ExtensionBlock>)
        ensures
            *r == old(self).ExtensionBlocks,
            *final(self) == (GifFileType { ExtensionBlocks: *final(r), ..*old(self) }),
    {
        &mut self.ExtensionBlocks
    }

    /// Convert a result into `GIF_OK` or `GIF_ERROR`, recording the error
    /// code in `Error` on failure.
    pub fn result_to_status(&mut self, result: Result<(), GifError>) -> (r: i32)
        ensures
            result is Ok ==> r == GIF_OK && *final(self) == *old(self),
            result matches Err(e) ==> r == GIF_ERROR && *final(self) == (GifFileType {
                Error: error_code(e),
                ..*old(self)
            }),
    {
        match result {
            Ok(()) => GIF_OK,
            Err(e) => {
                self.Error = e.code();
                GIF_ERROR
            },
        }
    }

    /// Read up to `buf.len()` bytes into the start of `buf`; returns how many
    /// were read (none from a handle opened for writing).
    pub fn read(&mut self, buf: &mut [u8]) -> (r: usize)
        requires
            old(self).wf(),
        ensures
            final(self).wf(),
            r == (if old(self).readable() { min_nat(old(buf)@.len() as int, old(self).input().len() as int) } else { 0 }),
            final(buf)@ == old(self).input().take(r as int) + old(buf)@.skip(r as int),
            final(self).input() == old(self).input().skip(r as int),
            final(self).output() == old(self).output(),
            final(self).readable() == old(self).readable(),
            final(self).writable() == old(self).writable(),
            same_except_io(*final(self), *old(self)),
    {
        match &mut self.Private.io {
            IoState::Read { data, pos } => {
                let avail = data.len() - *pos;
                let n = if buf.len() < avail { buf.len() } else { avail };
                let mut i: usize = 0;
                while i < n
                    invariant
                        *pos <= data@.len() <= usize::MAX,
                        n <= buf@.len(),
                        *pos + n <= data@.len(),
                        i <= n,
                        buf@.len() == old(buf)@.len(),
                        forall|k: int| 0 <= k < i ==> buf@[k] == data@[*pos + k],
                        forall|k: int| i <= k < buf@.len() ==> buf@[k] == old(buf)@[k],
                    decreases n - i,
                {
                    buf[i] = data[*pos + i];
                    i = i + 1;
                }
                *pos = *pos + n;
                assert(buf@ =~= old(self).input().take(n as int) + old(buf)@.skip(n as int));
                assert(io_input(self.Private.io) =~= old(self).input().skip(n as int));
                n
            },
            IoState::Write { .. } => {
                assert(buf@ =~= old(self).input().take(0) + old(buf)@.skip(0));
                assert(old(self).input() =~= old(self).input().skip(0));
                0
            },
        }
    }

    /// Read exactly `buf.len()` bytes; fails with `DReadFailed`, having
    /// consumed what was left, when fewer remain.
    pub fn read_exact(&mut self, buf: &mut [u8]) -> (r: Result<(), GifError>)
        requires
            old(self).wf(),
        ensures
            final(self).wf(),
            same_except_io(*final(self), *old(self)),
            final(self).readable() == old(self).readable(),
            final(self).writable() == old(self).writable(),
            final(self).output() == old(self).output(),
            final(buf)@.len() == old(buf)@.len(),
            r is Ok <==> (old(buf)@.len() == 0 || (old(self).readable() && old(buf)@.len() <= old(self).input().len())),
            r is Ok ==> final(buf)@ == old(self).input().take(old(buf)@.len() as int)
                && final(self).input() == old(self).input().skip(old(buf)@.len() as int),
            r is Err ==> r == Err::<(), GifError>(GifError::DReadFailed) && final(self).input().len() == 0,
    {
        let n = self.read(buf);
        if n != buf.len() {
            Err(GifError::DReadFailed)
        } else {
            Ok(())
        }
    }

    /// Read one byte.
    pub fn read_byte(&mut self) -> (r: Result<u8, GifError>)
        requires
            old(self).wf(),
        ensures
            final(self).wf(),
            same_except_io(*final(self), *old(self)),
            final(self).readable() == old(self).readable(),
            final(self).writable() == old(self).writable(),
            final(self).output() == old(self).output(),
            r is Ok <==> (old(self).readable() && old(self).input().len() >= 1),
            r matches Ok(b) ==> b == old(self).input()[0] && final(self).input() == old(self).input().skip(1),
            r is Err ==> r == Err::<u8, GifError>(GifError::DReadFailed) && final(self).input().len() == 0,
    {
        let mut b: [u8; 1] = [0u8];
        let r = self.read_exact(&mut b);
        match r {
            Ok(()) => Ok(b[0]),
            Err(e) => Err(e),
        }
    }

    /// Append `buf` to the output; returns how many bytes were written
    /// (none to a handle opened for reading).
    pub fn write(&mut self, buf: &[u8]) -> (r: usize)
        requires
            io_wf(old(self).Private.io),
        ensures
            io_wf(final(self).Private.io),
            old(self).wf() ==> final(self).wf(),
            r == (if old(self).writable() { buf@.len() } else { 0 }),
            final(self).output() == old(self).output() + buf@.take(r as int),
            final(self).input() == old(self).input(),
            final(self).readable() == old(self).readable(),
            final(self).writable() == old(self).writable(),
            same_except_io(*final(self), *old(self)),
    {
        match &mut self.Private.io {
            IoState::Write { out } => {
                let mut i: usize = 0;
                while i < buf.len()
                    invariant
                        i <= buf@.len(),
                        out@ == io_output(old(self).Private.io) + buf@.take(i as int),
                    decreases buf@.len() - i,
                {
                    out.push(buf[i]);
                    i = i + 1;
                    assert(out@ =~= io_output(old(self).Private.io) + buf@.take(i as int));
                }
                buf.len()
            },
            IoState::Read { .. } => {
                assert(old(self).output() =~= old(self).output() + buf@.take(0));
                0
            },
        }
    }

    /// Write all of `buf`, or fail with `EWriteFailed`.
    pub fn write_exact(&mut self, buf: &[u8]) -> (r: Result<(), GifError>)
        requires
            io_wf(old(self).Private.io),
        ensures
            io_wf(final(self).Private.io),
            old(self).wf() ==> final(self).wf(),
            same_except_io(*final(self), *old(self)),
            final(self).input() == old(self).input(),
            final(self).readable() == old(self).readable(),
            final(self).writable() == old(self).writable(),
            r is Ok <==> (old(self).writable() || buf@.len() == 0),
            r is Ok ==> final(self).output() == old(self).output() + buf@,
            r is Err ==> r == Err::<(), GifError>(GifError::EWriteFailed) && final(self).output() == old(self).output(),
    {
        let n = self.write(buf);
        if n != buf.len() {
            Err(GifError::EWriteFailed)
        } else {
            assert(buf@.take(n as int) =~= buf@);
            Ok(())
        }
    }

    /// Hand out the bytes written so far and start a new output.
    pub fn take_output(&mut self) -> (r: Vec<u8>)
        requires
            old(self).wf(),
        ensures
            final(self).wf(),
            r@ == old(self).output(),
            final(self).output().len() == 0,
            final(self).input() == old(self).input(),
            final(self).readable() == old(self).readable(),
            final(self).writable() == old(self).writable(),
            same_except_io(*final(self), *old(self)),
    {
        match &mut self.Private.io {
            IoState::Write { out } => {
                let mut fresh: Vec<u8> = Vec::new();
                std::mem::swap(out, &mut fresh);
                fresh
            },
            IoState::Read { .. } => Vec::new(),
        }
    }
}

impl GifFileType {
    /// Append a new saved image, a copy of `copy_from` or an empty one with
    /// a zeroed descriptor; returns its index.
    pub fn make_saved_image(&mut self, copy_from: Option<&SavedImage>) -> (r: usize)
        ensures
            r == old(self).SavedImages@.len(),
            final(self).SavedImages@.len() == old(self).SavedImages@.len() + 1,
            final(self).SavedImages@.subrange(0, r as int) == old(self).SavedImages@,
            match copy_from {
                Some(c) => {
                    let im = final(self).SavedImages@[r as int];
                    &&& crate::types::same_desc(im.ImageDesc, c.ImageDesc)
                    &&& im.RasterBits@ == c.RasterBits@
                    &&& crate::types::same_blocks(im.ExtensionBlocks@, c.ExtensionBlocks@)
                },
                None => {
                    let im = final(self).SavedImages@[r as int];
                    &&& im.ImageDesc.Left == 0 && im.ImageDesc.Top == 0
                    &&& im.ImageDesc.Width == 0 && im.ImageDesc.Height == 0
                    &&& !im.ImageDesc.Interlace && im.ImageDesc.ColorMap is None
                    &&& im.RasterBits@.len() == 0
                    &&& im.ExtensionBlocks@.len() == 0
                },
            },
            *final(self) == (GifFileType { SavedImages: final(self).SavedImages, ..*old(self) }),
    {
        let sp = match copy_from {
            Some(c) => c.duplicate(),
            None => SavedImage::new(GifImageDesc::empty()),
        };
        let r = self.SavedImages.len();
        self.SavedImages.push(sp);
        assert(self.SavedImages@.subrange(0, r as int) =~= old(self).SavedImages@);
        r
    }
}

} // verus!

//! Graphics control blocks and their four-byte extension form.
use vstd::prelude::*;
use crate::constants::NO_TRANSPARENT_COLOR;
use crate::err::GifError;

verus! {

/// The fields of a graphics control extension.
#[derive(Debug, Clone, Copy, PartialEq, Eq, Structural)]
pub struct GraphicsControlBlock {
    pub DisposalMode: i32,
    pub UserInputFlag: bool,
    /// Delay in hundredths of a second.
    pub DelayTime: i32,
    /// Transparent color index, or `NO_TRANSPARENT_COLOR`.
    pub TransparentColor: i32,
}

/// The packed-fields byte of a graphics control extension.
pub open spec fn gcb_packed_byte(gcb: GraphicsControlBlock) -> u8 {
    ((if gcb.TransparentColor == NO_TRANSPARENT_COLOR { 0u8 } else { 1u8 })
        | (if gcb.UserInputFlag { 2u8 } else { 0u8 })
        | (((gcb.DisposalMode & 7) << 2u32) as u8))
}

/// The four bytes of a graphics control extension: packed fields, delay
/// (low byte, high byte) and transparent color index.
pub open spec fn gcb_bytes(gcb: GraphicsControlBlock) -> Seq<u8> {
    seq![
        gcb_packed_byte(gcb),
        (gcb.DelayTime & 0xff) as u8,
        ((gcb.DelayTime >> 8u32) & 0xff) as u8,
        gcb.TransparentColor as u8,
    ]
}

/// The graphics control block that four extension bytes describe.
pub open spec fn gcb_of_bytes(ext: Seq<u8>) -> GraphicsControlBlock {
    GraphicsControlBlock {
        DisposalMode: ((ext[0] >> 2u32) & 7) as i32,
        UserInputFlag: (ext[0] & 2) != 0,
        DelayTime: ((ext[1] as i32) | ((ext[2] as i32) << 8u32)),
        TransparentColor: if (ext[0] & 1) != 0 { ext[3] as i32 } else { NO_TRANSPARENT_COLOR },
    }
}

/// Render a graphics control block as raw extension data.
pub fn egif_gcb_to_extension(gcb: &GraphicsControlBlock, ext: &mut [u8; 4])
    ensures
        final(ext)@ == gcb_bytes(*gcb),
{
    let t: u8 = if gcb.TransparentColor == NO_TRANSPARENT_COLOR { 0x00 } else { 0x01 };
    let u: u8 = if gcb.UserInputFlag { 0x02 } else { 0x00 };
    let d: u8 = ((gcb.DisposalMode & 0x07) << 2u32) as u8;
    let b0: u8 = t | u | d;
    let b1: u8 = (gcb.DelayTime & 0xff) as u8;
    let b2: u8 = ((gcb.DelayTime >> 8u32) & 0xff) as u8;
    let b3: u8 = gcb.TransparentColor as u8;
    ext[0] = b0;
    ext[1] = b1;
    ext[2] = b2;
    ext[3] = b3;
    assert(ext@ =~= gcb_bytes(*gcb));
}

/// Read a graphics control block from raw extension data, which must be
/// exactly four bytes long.
pub fn dgif_extension_to_gcb(ext: &[u8], gcb: &mut GraphicsControlBlock) -> (r: Result<(), GifError>)
    ensures
        r is Ok <==> ext@.len() == 4,
        r is Ok ==> *final(gcb) == gcb_of_bytes(ext@),
        r is Err ==> r == Err::<(), GifError>(GifError::DImageDefect) && *final(gcb) == *old(gcb),
{
    if ext.len() != 4 {
        return Err(GifError::DImageDefect);
    }
    gcb.DisposalMode = ((ext[0] >> 2u32) & 0x07) as i32;
    gcb.UserInputFlag = (ext[0] & 0x02) != 0;
    gcb.DelayTime = (ext[1] as i32) | ((ext[2] as i32) << 8u32);
    if (ext[0] & 0x01) != 0 {
        gcb.TransparentColor = ext[3] as i32;
    } else {
        gcb.TransparentColor = NO_TRANSPARENT_COLOR;
    }
    Ok(())
}

/// Writing a graphics control block to its extension bytes and reading them
/// back gives the same block, for every block whose fields fit the format:
/// a disposal mode in 0..=7, a delay in 0..=65535 and a transparent color
/// that is either absent or in 0..=255.
pub proof fn lemma_gcb_round_trip(gcb: GraphicsControlBlock)
    requires
        0 <= gcb.DisposalMode <= 7,
        0 <= gcb.DelayTime <= 0xffff,
        gcb.TransparentColor == NO_TRANSPARENT_COLOR || 0 <= gcb.TransparentColor <= 255,
    ensures
        gcb_of_bytes(gcb_bytes(gcb)) == gcb,
{
    let dm = gcb.DisposalMode;
    let dt = gcb.DelayTime;
    let tc = gcb.TransparentColor;
    let t: u8 = if tc == NO_TRANSPARENT_COLOR { 0u8 } else { 1u8 };
    let u: u8 = if gcb.UserInputFlag { 2u8 } else { 0u8 };
    let b0 = gcb_packed_byte(gcb);
    assert(b0 == (t | u | (((dm & 7) << 2u32) as u8)));
    assert(((((t | u | (((dm & 7) << 2u32) as u8)) >> 2u32) & 7) as i32) == dm) by (bit_vector)
        requires
            0 <= dm <= 7,
            t == 0 || t == 1,
            u == 0 || u == 2,
    ;
    assert((((t | u | (((dm & 7) << 2u32) as u8)) & 2) != 0) == (u == 2)) by (bit_vector)
        requires
            t == 0 || t == 1,
            u == 0 || u == 2,
    ;
    assert((((t | u | (((dm & 7) << 2u32) as u8)) & 1) != 0) == (t == 1)) by (bit_vector)
        requires
            t == 0 || t == 1,
            u == 0 || u == 2,
    ;
    assert((((dt & 0xff) as u8) as i32 | ((((dt >> 8u32) & 0xff) as u8) as i32) << 8u32) == dt)
        by (bit_vector)
        requires
            0 <= dt <= 0xffff,
    ;
    assert(0 <= tc <= 255 ==> (tc as u8) as i32 == tc) by (bit_vector);
}

} // verus!

//! Numeric constants of the GIF format and of the library's interface.
use vstd::prelude::*;

verus! {

/// Status returned by the C-style interface on failure.
pub const GIF_ERROR: i32 = 0;
/// Status returned by the C-style interface on success.
pub const GIF_OK: i32 = 1;

pub const D_GIF_SUCCEEDED: i32 = 0;
pub const D_GIF_ERR_OPEN_FAILED: i32 = 101;
pub const D_GIF_ERR_READ_FAILED: i32 = 102;
pub const D_GIF_ERR_NOT_GIF_FILE: i32 = 103;
pub const D_GIF_ERR_NO_SCRN_DSCR: i32 = 104;
pub const D_GIF_ERR_NO_IMAG_DSCR: i32 = 105;
pub const D_GIF_ERR_NO_COLOR_MAP: i32 = 106;
pub const D_GIF_ERR_WRONG_RECORD: i32 = 107;
pub const D_GIF_ERR_DATA_TOO_BIG: i32 = 108;
pub const D_GIF_ERR_NOT_ENOUGH_MEM: i32 = 109;
pub const D_GIF_ERR_CLOSE_FAILED: i32 = 110;
pub const D_GIF_ERR_NOT_READABLE: i32 = 111;
pub const D_GIF_ERR_IMAGE_DEFECT: i32 = 112;
pub const D_GIF_ERR_EOF_TOO_SOON: i32 = 113;

pub const E_GIF_SUCCEEDED: i32 = 0;
pub const E_GIF_ERR_OPEN_FAILED: i32 = 1;
pub const E_GIF_ERR_WRITE_FAILED: i32 = 2;
pub const E_GIF_ERR_HAS_SCRN_DSCR: i32 = 3;
pub const E_GIF_ERR_HAS_IMAG_DSCR: i32 = 4;
pub const E_GIF_ERR_NO_COLOR_MAP: i32 = 5;
pub const E_GIF_ERR_DATA_TOO_BIG: i32 = 6;
pub const E_GIF_ERR_NOT_ENOUGH_MEM: i32 = 7;
pub const E_GIF_ERR_DISK_IS_FULL: i32 = 8;
pub const E_GIF_ERR_CLOSE_FAILED: i32 = 9;
pub const E_GIF_ERR_NOT_WRITEABLE: i32 = 10;

/// Extension function codes.
pub const CONTINUE_EXT_FUNC_CODE: i32 = 0x00;
pub const COMMENT_EXT_FUNC_CODE: i32 = 0xfe;
pub const GRAPHICS_EXT_FUNC_CODE: i32 = 0xf9;
pub const PLAINTEXT_EXT_FUNC_CODE: i32 = 0x01;
pub const APPLICATION_EXT_FUNC_CODE: i32 = 0xff;

/// Disposal modes of a graphics control block.
pub const DISPOSAL_UNSPECIFIED: i32 = 0;
pub const DISPOSE_DO_NOT: i32 = 1;
pub const DISPOSE_BACKGROUND: i32 = 2;
pub const DISPOSE_PREVIOUS: i32 = 3;
pub const NO_TRANSPARENT_COLOR: i32 = -1;

/// Length of the "GIF87a" / "GIF89a" signature, and where its version starts.
pub const GIF_STAMP_LEN: usize = 6;
pub const GIF_VERSION_POS: usize = 3;

/// Record markers.
pub const EXTENSION_INTRODUCER: u8 = 0x21;
pub const DESCRIPTOR_INTRODUCER: u8 = 0x2C;
pub const TERMINATOR_INTRODUCER: u8 = 0x3B;

/// LZW limits and special codes.
pub const LZ_MAX_CODE: usize = 4095;
pub const LZ_BITS: i32 = 12;
pub const FLUSH_OUTPUT: i32 = 4096;
pub const FIRST_CODE: i32 = 4097;
pub const NO_SUCH_CODE: i32 = 4098;

} // verus!

//! Error values of the decoder and encoder, their numeric codes and messages.
use vstd::prelude::*;
use crate::constants::{
    D_GIF_ERR_CLOSE_FAILED,
    D_GIF_ERR_DATA_TOO_BIG,
    D_GIF_ERR_EOF_TOO_SOON,
    D_GIF_ERR_IMAGE_DEFECT,
    D_GIF_ERR_NOT_ENOUGH_MEM,
    D_GIF_ERR_NOT_GIF_FILE,
    D_GIF_ERR_NOT_READABLE,
    D_GIF_ERR_NO_COLOR_MAP,
    D_GIF_ERR_NO_IMAG_DSCR,
    D_GIF_ERR_NO_SCRN_DSCR,
    D_GIF_ERR_OPEN_FAILED,
    D_GIF_ERR_READ_FAILED,
    D_GIF_ERR_WRONG_RECORD,
    E_GIF_ERR_CLOSE_FAILED,
    E_GIF_ERR_DATA_TOO_BIG,
    E_GIF_ERR_DISK_IS_FULL,
    E_GIF_ERR_HAS_IMAG_DSCR,
    E_GIF_ERR_HAS_SCRN_DSCR,
    E_GIF_ERR_NOT_ENOUGH_MEM,
    E_GIF_ERR_NOT_WRITEABLE,
    E_GIF_ERR_NO_COLOR_MAP,
    E_GIF_ERR_OPEN_FAILED,
    E_GIF_ERR_WRITE_FAILED,
};

verus! {

/// A decoder (`D...`) or encoder (`E...`) error, one for each numeric error code.
#[derive(Debug, Clone, Copy, PartialEq, Eq, Structural)]
pub enum GifError {
    DOpenFailed,
    DReadFailed,
    DNotGifFile,
    DNoScreenDesc,
    DNoImageDesc,
    DNoColorMap,
    DWrongRecord,
    DDataTooBig,
    DNotEnoughMem,
    DCloseFailed,
    DNotReadable,
    DImageDefect,
    DEofTooSoon,
    EOpenFailed,
    EWriteFailed,
    EHasScreenDesc,
    EHasImageDesc,
    ENoColorMap,
    EDataTooBig,
    ENotEnoughMem,
    EDiskIsFull,
    ECloseFailed,
    ENotWriteable,
}

/// The numeric code of an error.
pub open spec fn error_code(e: GifError) -> i32 {
    match e {
        GifError::DOpenFailed => D_GIF_ERR_OPEN_FAILED,
        GifError::DReadFailed => D_GIF_ERR_READ_FAILED,
        GifError::DNotGifFile => D_GIF_ERR_NOT_GIF_FILE,
        GifError::DNoScreenDesc => D_GIF_ERR_NO_SCRN_DSCR,
        GifError::DNoImageDesc => D_GIF_ERR_NO_IMAG_DSCR,
        GifError::DNoColorMap => D_GIF_ERR_NO_COLOR_MAP,
        GifError::DWrongRecord => D_GIF_ERR_WRONG_RECORD,
        GifError::DDataTooBig => D_GIF_ERR_DATA_TOO_BIG,
        GifError::DNotEnoughMem => D_GIF_ERR_NOT_ENOUGH_MEM,
        GifError::DCloseFailed => D_GIF_ERR_CLOSE_FAILED,
        GifError::DNotReadable => D_GIF_ERR_NOT_READABLE,
        GifError::DImageDefect => D_GIF_ERR_IMAGE_DEFECT,
        GifError::DEofTooSoon => D_GIF_ERR_EOF_TOO_SOON,
        GifError::EOpenFailed => E_GIF_ERR_OPEN_FAILED,
        GifError::EWriteFailed => E_GIF_ERR_WRITE_FAILED,
        GifError::EHasScreenDesc => E_GIF_ERR_HAS_SCRN_DSCR,
        GifError::EHasImageDesc => E_GIF_ERR_HAS_IMAG_DSCR,
        GifError::ENoColorMap => E_GIF_ERR_NO_COLOR_MAP,
        GifError::EDataTooBig => E_GIF_ERR_DATA_TOO_BIG,
        GifError::ENotEnoughMem => E_GIF_ERR_NOT_ENOUGH_MEM,
        GifError::EDiskIsFull => E_GIF_ERR_DISK_IS_FULL,
        GifError::ECloseFailed => E_GIF_ERR_CLOSE_FAILED,
        GifError::ENotWriteable => E_GIF_ERR_NOT_WRITEABLE,
    }
}

/// The message of an error.
pub open spec fn error_message(e: GifError) -> Seq<char> {
    match e {
        GifError::DOpenFailed => "Failed to open given file"@,
        GifError::DReadFailed => "Failed to read from given file"@,
        GifError::DNotGifFile => "Data is not in GIF format"@,
        GifError::DNoScreenDesc => "No screen descriptor detected"@,
        GifError::DNoImageDesc => "No Image Descriptor detected"@,
        GifError::DNoColorMap => "Neither global nor local color map"@,
        GifError::DWrongRecord => "Wrong record type detected"@,
        GifError::DDataTooBig => "Number of pixels bigger than width * height"@,
        GifError::DNotEnoughMem => "Failed to allocate required memory"@,
        GifError::DCloseFailed => "Failed to close given file"@,
        GifError::DNotReadable => "Given file was not opened for read"@,
        GifError::DImageDefect => "Image is defective, decoding aborted"@,
        GifError::DEofTooSoon => "Image EOF detected before image complete"@,
        GifError::EOpenFailed => "Failed to open given file"@,
        GifError::EWriteFailed => "Failed to write to given file"@,
        GifError::EHasScreenDesc => "Screen descriptor has already been set"@,
        GifError::EHasImageDesc => "Image descriptor is still active"@,
        GifError::ENoColorMap => "Neither global nor local color map"@,
        GifError::EDataTooBig => "Number of pixels bigger than width * height"@,
        GifError::ENotEnoughMem => "Failed to allocate required memory"@,
        GifError::EDiskIsFull => "Write failed (disk full?)"@,
        GifError::ECloseFailed => "Failed to close given file"@,
        GifError::ENotWriteable => "Given file was not opened for write"@,
    }
}

/// Errors that share a message: the same error, or a decoder error and the
/// encoder error of the same kind (opening, no color map, too many pixels,
/// memory, closing).
pub open spec fn shares_message(a: GifError, b: GifError) -> bool {
    ||| a == b
    ||| (a == GifError::DOpenFailed && b == GifError::EOpenFailed) || (a == GifError::EOpenFailed && b == GifError::DOpenFailed)
    ||| (a == GifError::DNoColorMap && b == GifError::ENoColorMap) || (a == GifError::ENoColorMap && b == GifError::DNoColorMap)
    ||| (a == GifError::DDataTooBig && b == GifError::EDataTooBig) || (a == GifError::EDataTooBig && b == GifError::DDataTooBig)
    ||| (a == GifError::DNotEnoughMem && b == GifError::ENotEnoughMem) || (a == GifError::ENotEnoughMem && b == GifError::DNotEnoughMem)
    ||| (a == GifError::DCloseFailed && b == GifError::ECloseFailed) || (a == GifError::ECloseFailed && b == GifError::DCloseFailed)
}

/// Every message is non-empty, and two errors have the same message exactly
/// when they share it: the same error, or one of the five decoder and
/// encoder errors of the same kind.
pub proof fn lemma_messages_distinct(a: GifError, b: GifError)
    ensures
        error_message(a).len() > 0,
        (error_message(a) == error_message(b)) == shares_message(a, b),
{
    reveal_strlit("Data is not in GIF format");
    reveal_strlit("Failed to allocate required memory");
    reveal_strlit("Failed to close given file");
    reveal_strlit("Failed to open given file");
    reveal_strlit("Failed to read from given file");
    reveal_strlit("Failed to write to given file");
    reveal_strlit("Given file was not opened for read");
    reveal_strlit("Given file was not opened for write");
    reveal_strlit("Image EOF detected before image complete");
    reveal_strlit("Image descriptor is still active");
    reveal_strlit("Image is defective, decoding aborted");
    reveal_strlit("Neither global nor local color map");
    reveal_strlit("No Image Descriptor detected");
    reveal_strlit("No screen descriptor detected");
    reveal_strlit("Number of pixels bigger than width * height");
    reveal_strlit("Screen descriptor has already been set");
    reveal_strlit("Write failed (disk full?)");
    reveal_strlit("Wrong record type detected");
    if error_message(a) == error_message(b) {
        assert(error_message(a).len() == error_message(b).len());
        assert(error_message(a)[0] == error_message(b)[0]);
    }
}

impl GifError {
    /// The numeric `D_GIF_ERR_*` / `E_GIF_ERR_*` code of this error.
    pub fn code(self) -> (r: i32)
        ensures
            r == error_code(self),
    {
        match self {
            GifError::DOpenFailed => D_GIF_ERR_OPEN_FAILED,
            GifError::DReadFailed => D_GIF_ERR_READ_FAILED,
            GifError::DNotGifFile => D_GIF_ERR_NOT_GIF_FILE,
            GifError::DNoScreenDesc => D_GIF_ERR_NO_SCRN_DSCR,
            GifError::DNoImageDesc => D_GIF_ERR_NO_IMAG_DSCR,
            GifError::DNoColorMap => D_GIF_ERR_NO_COLOR_MAP,
            GifError::DWrongRecord => D_GIF_ERR_WRONG_RECORD,
            GifError::DDataTooBig => D_GIF_ERR_DATA_TOO_BIG,
            GifError::DNotEnoughMem => D_GIF_ERR_NOT_ENOUGH_MEM,
            GifError::DCloseFailed => D_GIF_ERR_CLOSE_FAILED,
            GifError::DNotReadable => D_GIF_ERR_NOT_READABLE,
            GifError::DImageDefect => D_GIF_ERR_IMAGE_DEFECT,
            GifError::DEofTooSoon => D_GIF_ERR_EOF_TOO_SOON,
            GifError::EOpenFailed => E_GIF_ERR_OPEN_FAILED,
            GifError::EWriteFailed => E_GIF_ERR_WRITE_FAILED,
            GifError::EHasScreenDesc => E_GIF_ERR_HAS_SCRN_DSCR,
            GifError::EHasImageDesc => E_GIF_ERR_HAS_IMAG_DSCR,
            GifError::ENoColorMap => E_GIF_ERR_NO_COLOR_MAP,
            GifError::EDataTooBig => E_GIF_ERR_DATA_TOO_BIG,
            GifError::ENotEnoughMem => E_GIF_ERR_NOT_ENOUGH_MEM,
            GifError::EDiskIsFull => E_GIF_ERR_DISK_IS_FULL,
            GifError::ECloseFailed => E_GIF_ERR_CLOSE_FAILED,
            GifError::ENotWriteable => E_GIF_ERR_NOT_WRITEABLE,
        }
    }

    /// The error whose numeric code is `code`, or `None` for an unknown code.
    pub fn from_error_code(code: i32) -> (r: Option<GifError>)
        ensures
            match r {
                Some(e) => error_code(e) == code,
                None => forall|e: GifError| error_code(e) != code,
            },
    {
        match code {
            D_GIF_ERR_OPEN_FAILED => Some(GifError::DOpenFailed),
            D_GIF_ERR_READ_FAILED => Some(GifError::DReadFailed),
            D_GIF_ERR_NOT_GIF_FILE => Some(GifError::DNotGifFile),
            D_GIF_ERR_NO_SCRN_DSCR => Some(GifError::DNoScreenDesc),
            D_GIF_ERR_NO_IMAG_DSCR => Some(GifError::DNoImageDesc),
            D_GIF_ERR_NO_COLOR_MAP => Some(GifError::DNoColorMap),
            D_GIF_ERR_WRONG_RECORD => Some(GifError::DWrongRecord),
            D_GIF_ERR_DATA_TOO_BIG => Some(GifError::DDataTooBig),
            D_GIF_ERR_NOT_ENOUGH_MEM => Some(GifError::DNotEnoughMem),
            D_GIF_ERR_CLOSE_FAILED => Some(GifError::DCloseFailed),
            D_GIF_ERR_NOT_READABLE => Some(GifError::DNotReadable),
            D_GIF_ERR_IMAGE_DEFECT => Some(GifError::DImageDefect),
            D_GIF_ERR_EOF_TOO_SOON => Some(GifError::DEofTooSoon),
            E_GIF_ERR_OPEN_FAILED => Some(GifError::EOpenFailed),
            E_GIF_ERR_WRITE_FAILED => Some(GifError::EWriteFailed),
            E_GIF_ERR_HAS_SCRN_DSCR => Some(GifError::EHasScreenDesc),
            E_GIF_ERR_HAS_IMAG_DSCR => Some(GifError::EHasImageDesc),
            E_GIF_ERR_NO_COLOR_MAP => Some(GifError::ENoColorMap),
            E_GIF_ERR_DATA_TOO_BIG => Some(GifError::EDataTooBig),
            E_GIF_ERR_NOT_ENOUGH_MEM => Some(GifError::ENotEnoughMem),
            E_GIF_ERR_DISK_IS_FULL => Some(GifError::EDiskIsFull),
            E_GIF_ERR_CLOSE_FAILED => Some(GifError::ECloseFailed),
            E_GIF_ERR_NOT_WRITEABLE => Some(GifError::ENotWriteable),
            _ => None,
        }
    }

    /// The human-readable description of this error.
    pub fn to_error_string(self) -> (r: &'static str)
        ensures
            r@ == error_message(self),
    {
        match self {
            GifError::DOpenFailed => "Failed to open given file",
            GifError::DReadFailed => "Failed to read from given file",
            GifError::DNotGifFile => "Data is not in GIF format",
            GifError::DNoScreenDesc => "No screen descriptor detected",
            GifError::DNoImageDesc => "No Image Descriptor detected",
            GifError::DNoColorMap => "Neither global nor local color map",
            GifError::DWrongRecord => "Wrong record type detected",
            GifError::DDataTooBig => "Number of pixels bigger than width * height",
            GifError::DNotEnoughMem => "Failed to allocate required memory",
            GifError::DCloseFailed => "Failed to close given file",
            GifError::DNotReadable => "Given file was not opened for read",
            GifError::DImageDefect => "Image is defective, decoding aborted",
            GifError::DEofTooSoon => "Image EOF detected before image complete",
            GifError::EOpenFailed => "Failed to open given file",
            GifError::EWriteFailed => "Failed to write to given file",
            GifError::EHasScreenDesc => "Screen descriptor has already been set",
            GifError::EHasImageDesc => "Image descriptor is still active",
            GifError::ENoColorMap => "Neither global nor local color map",
            GifError::EDataTooBig => "Number of pixels bigger than width * height",
            GifError::ENotEnoughMem => "Failed to allocate required memory",
            GifError::EDiskIsFull => "Write failed (disk full?)",
            GifError::ECloseFailed => "Failed to close given file",
            GifError::ENotWriteable => "Given file was not opened for write",
        }
    }
}

/// Each error is found again from its numeric code, and distinct errors have
/// distinct codes.
pub proof fn lemma_error_code_round_trip(e: GifError)
    ensures
        forall|f: GifError| error_code(f) == error_code(e) ==> f == e,
{
}

} // verus!

use vstd::prelude::*;

verus! {

/// Standard clipboard formats, as registered by Windows.
#[allow(non_camel_case_types)]
pub enum ClipboardFormats {
    CF_TEXT,
    CF_BITMAP,
    CF_METAFILEPICT,
    CF_SYLK,
    CF_DIF,
    CF_TIFF,
    CF_OEMTEXT,
    CF_DIB,
    CF_PALETTE,
    CF_PENDATA,
    CF_RIFF,
    CF_WAVE,
    CF_UNICODETEXT,
    CF_ENHMETAFILE,
    CF_HDROP,
    CF_LOCALE,
    CF_DIBV5,
}

/// The numeric identifier Windows uses for each standard clipboard format.
pub open spec fn format_code(f: ClipboardFormats) -> u32 {
    match f {
        ClipboardFormats::CF_TEXT => 1,
        ClipboardFormats::CF_BITMAP => 2,
        ClipboardFormats::CF_METAFILEPICT => 3,
        ClipboardFormats::CF_SYLK => 4,
        ClipboardFormats::CF_DIF => 5,
        ClipboardFormats::CF_TIFF => 6,
        ClipboardFormats::CF_OEMTEXT => 7,
        ClipboardFormats::CF_DIB => 8,
        ClipboardFormats::CF_PALETTE => 9,
        ClipboardFormats::CF_PENDATA => 10,
        ClipboardFormats::CF_RIFF => 11,
        ClipboardFormats::CF_WAVE => 12,
        ClipboardFormats::CF_UNICODETEXT => 13,
        ClipboardFormats::CF_ENHMETAFILE => 14,
        ClipboardFormats::CF_HDROP => 15,
        ClipboardFormats::CF_LOCALE => 16,
        ClipboardFormats::CF_DIBV5 => 17,
    }
}

impl ClipboardFormats {
    /// The format identifier passed to the clipboard API.
    pub fn code(&self) -> (c: u32)
        ensures
            c == format_code(*self),
            1 <= c <= 17,
    {
        match self {
            ClipboardFormats::CF_TEXT => 1,
            ClipboardFormats::CF_BITMAP => 2,
            ClipboardFormats::CF_METAFILEPICT => 3,
            ClipboardFormats::CF_SYLK => 4,
            ClipboardFormats::CF_DIF => 5,
            ClipboardFormats::CF_TIFF => 6,
            ClipboardFormats::CF_OEMTEXT => 7,
            ClipboardFormats::CF_DIB => 8,
            ClipboardFormats::CF_PALETTE => 9,
            ClipboardFormats::CF_PENDATA => 10,
            ClipboardFormats::CF_RIFF => 11,
            ClipboardFormats::CF_WAVE => 12,
            ClipboardFormats::CF_UNICODETEXT => 13,
            ClipboardFormats::CF_ENHMETAFILE => 14,
            ClipboardFormats::CF_HDROP => 15,
            ClipboardFormats::CF_LOCALE => 16,
            ClipboardFormats::CF_DIBV5 => 17,
        }
    }
}

/// Distinct formats have distinct identifiers, so a format can always be
/// recovered from the identifier sent to the clipboard.
pub proof fn lemma_format_code_injective(a: ClipboardFormats, b: ClipboardFormats)
    ensures
        format_code(a) == format_code(b) ==> a == b,
{
}

} // verus!

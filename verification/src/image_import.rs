//! Local image import: which files the canvas accepts.

use vstd::prelude::*;

use crate::text::str_equals;

verus! {

/// The raster formats that can be imported.
pub open spec fn supported_image_type(mime_type: Seq<char>) -> bool {
    ||| mime_type == "image/png"@
    ||| mime_type == "image/jpeg"@
    ||| mime_type == "image/webp"@
}

/// Whether a file of this mime type can be imported. Anything else (SVG,
/// PDF, files dropped by mistake) is ignored rather than reported.
pub fn is_supported_image_type(mime_type: &str) -> (ok: bool)
    ensures
        ok == supported_image_type(mime_type@),
{
    str_equals(mime_type, "image/png") || str_equals(mime_type, "image/jpeg") || str_equals(mime_type, "image/webp")
}

} // verus!

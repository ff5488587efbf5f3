//! Parsing the embedded font.
use vstd::prelude::*;

use ab_glyph::{FontRef, InvalidFont};

verus! {

#[verifier::external_type_specification]
#[verifier::external_body]
pub struct ExFontRef<'font>(FontRef<'font>);

#[verifier::external_type_specification]
#[verifier::external_body]
pub struct ExInvalidFont(InvalidFont);

/// Whether ab_glyph (through ttf-parser) reads `data` as a font face.
pub uninterp spec fn font_parses(data: Seq<u8>) -> bool;

/// `ab_glyph::FontRef::try_from_slice`: parses the first face in `data`; it succeeds
/// exactly when `font_parses` holds of the bytes.
#[verifier::external_body]
fn font_ref_from_slice(data: &'static [u8]) -> (r: Result<FontRef<'static>, InvalidFont>)
    ensures
        r is Ok <==> font_parses(data@),
{
    FontRef::try_from_slice(data)
}

/// The font data is not a font face that can be read.
#[derive(Debug, Clone, Copy, PartialEq, Eq, Structural)]
pub struct FontLoadError;

/// Reads the font face that the glyph grid is measured and drawn with.
pub fn load_face(data: &'static [u8]) -> (r: Result<FontRef<'static>, FontLoadError>)
    ensures
        r is Ok <==> font_parses(data@),
{
    match font_ref_from_slice(data) {
        Ok(face) => Ok(face),
        Err(_) => Err(FontLoadError),
    }
}

} // verus!

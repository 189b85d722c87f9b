//! Icon files: which decoder a file needs, and decoding raster icons.
use crate::model::IconBitmap;
use crate::text::{chars_eq_str, chars_of, opt_string};
use vstd::prelude::*;

verus! {

// ---------------------------------------------------------------------------
// File format
// ---------------------------------------------------------------------------

/// The result of `Path::extension` on a path written as text: what follows
/// the last `.` of the final component, if there is one.
pub uninterp spec fn spec_file_extension(path: Seq<char>) -> Option<Seq<char>>;

/// `Path::extension`, on a path given as UTF-8 text (whose components are
/// then UTF-8 too).  The result is named by `spec_file_extension`.
#[verifier::external_body]
fn file_extension(path: &str) -> (r: Option<String>)
    ensures
        opt_string(r) == spec_file_extension(path@),
{
    let ext = std::path::Path::new(path).extension()?;
    Some(ext.to_string_lossy().into_owned())
}

/// `char::to_ascii_lowercase`: `A` to `Z` become `a` to `z`.
pub open spec fn ascii_lower_char(c: char) -> char {
    if 'A' <= c && c <= 'Z' {
        ((c as u32) + 32) as char
    } else {
        c
    }
}

/// `str::to_ascii_lowercase`.
pub open spec fn ascii_lower(s: Seq<char>) -> Seq<char> {
    s.map_values(|c: char| ascii_lower_char(c))
}

/// Which decoder an icon file needs.
#[derive(Clone, Copy, Debug, PartialEq, Eq, Structural)]
pub enum IconFormat {
    /// A drawing, rendered by the SVG renderer.
    Svg,
    /// A raster image, decoded and scaled.
    Raster,
}

/// An icon file is a drawing when its extension is `svg` in any ASCII case,
/// a raster image otherwise.
pub open spec fn spec_icon_format(path: Seq<char>) -> IconFormat {
    match spec_file_extension(path) {
        Some(e) => if ascii_lower(e) == "svg"@ {
            IconFormat::Svg
        } else {
            IconFormat::Raster
        },
        None => IconFormat::Raster,
    }
}

fn ascii_lower_exec(c: char) -> (r: char)
    ensures
        r == ascii_lower_char(c),
{
    if 'A' <= c && c <= 'Z' {
        let b = c as u8;
        assert(b as u32 == c as u32);
        (b + 32) as char
    } else {
        c
    }
}

/// Decides which decoder the icon file at `path` needs.
pub fn icon_format(path: &str) -> (r: IconFormat)
    ensures
        r == spec_icon_format(path@),
{
    match file_extension(path) {
        None => IconFormat::Raster,
        Some(e) => {
            let cs = chars_of(e.as_str());
            let mut low: Vec<char> = Vec::new();
            let mut i: usize = 0;
            while i < cs.len()
                invariant
                    i <= cs@.len(),
                    low@ == ascii_lower(cs@.take(i as int)),
                decreases cs@.len() - i,
            {
                low.push(ascii_lower_exec(cs[i]));
                i = i + 1;
                assert(ascii_lower(cs@.take(i as int)) =~= low@);
            }
            assert(cs@.take(cs@.len() as int) == cs@);
            if chars_eq_str(&low, "svg") {
                IconFormat::Svg
            } else {
                IconFormat::Raster
            }
        },
    }
}

// ---------------------------------------------------------------------------
// Raster icons
// ---------------------------------------------------------------------------

/// What decoding the bytes of a raster icon and scaling it to `size` by
/// `size` pixels gives: its RGBA bytes, row by row, or `None` when the bytes
/// are no image that the decoder reads.
pub uninterp spec fn spec_decoded_icon(bytes: Seq<u8>, size: u32) -> Option<Seq<u8>>;

/// `image::load_from_memory` (the format guessed from the bytes), then
/// `DynamicImage::resize_exact` to `size` by `size` with the triangle
/// filter, then `to_rgba8().into_raw()`.  The result is named by
/// `spec_decoded_icon`; the scaled image has 4 bytes per pixel.  The buffer
/// size must fit in `usize`, or the image buffer panics.
#[verifier::external_body]
fn decode_raster_icon(bytes: &[u8], size: u32) -> (r: Option<Vec<u8>>)
    requires
        4 * size * size <= usize::MAX,
    ensures
        match r {
            Some(v) => spec_decoded_icon(bytes@, size) == Some(v@),
            None => spec_decoded_icon(bytes@, size) is None,
        },
        r matches Some(v) ==> v@.len() == 4 * size * size,
{
    let image = image::load_from_memory(bytes).ok()?;
    let resized = image.resize_exact(size, size, image::imageops::FilterType::Triangle);
    Some(resized.to_rgba8().into_raw())
}

/// The bitmap of a raster icon file's bytes, scaled to `size` by `size`;
/// `None` when the bytes are no image the decoder reads.
pub fn raster_icon(bytes: &[u8], size: u32) -> (r: Option<IconBitmap>)
    requires
        4 * size * size <= usize::MAX,
    ensures
        r is None <==> spec_decoded_icon(bytes@, size) is None,
        r matches Some(b) ==> b.width == size && b.height == size && Some(b.rgba@)
            == spec_decoded_icon(bytes@, size) && b.rgba@.len() == 4 * size * size,
{
    match decode_raster_icon(bytes, size) {
        Some(rgba) => Some(IconBitmap { width: size, height: size, rgba }),
        None => None,
    }
}

} // verus!

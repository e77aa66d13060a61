//! Image format selection: maps a file extension to the firmware image
//! container it names.

use vstd::prelude::*;
use crate::text::str_equal;

verus! {

/// The supported firmware image containers, each carrying the optional
/// upload offset that was given with it.
#[derive(Clone, Copy, Debug, PartialEq, Eq)]
pub enum ImageFormat {
    /// An ELF executable image.
    Elf(Option<usize>),
    /// An Intel HEX text image.
    Hex(Option<usize>),
    /// A DFU container image.
    Dfu(Option<usize>),
    /// A raw binary image.
    Bin(Option<usize>),
}

/// The format that an extension string names: `dfu`, `bin` and `hex` name
/// themselves, and anything else falls back to ELF.
pub open spec fn image_format_of(ext: Seq<char>, offset: Option<usize>) -> ImageFormat {
    if ext == "dfu"@ {
        ImageFormat::Dfu(offset)
    } else if ext == "bin"@ {
        ImageFormat::Bin(offset)
    } else if ext == "hex"@ {
        ImageFormat::Hex(offset)
    } else {
        ImageFormat::Elf(offset)
    }
}

/// Picks the image format that the given extension names, pairing it with
/// the offset to upload at.
pub fn parse_image_type_from_extension(extension: &String, offset: Option<usize>) -> (r:
    ImageFormat)
    ensures
        r == image_format_of(extension@, offset),
{
    if str_equal(extension.as_str(), "dfu") {
        ImageFormat::Dfu(offset)
    } else if str_equal(extension.as_str(), "bin") {
        ImageFormat::Bin(offset)
    } else if str_equal(extension.as_str(), "hex") {
        ImageFormat::Hex(offset)
    } else {
        ImageFormat::Elf(offset)
    }
}

} // verus!

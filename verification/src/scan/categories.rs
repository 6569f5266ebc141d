//! File categories.

use vstd::prelude::*;

verus! {

/// Number of file categories.
pub const CATEGORY_COUNT: usize = 9;

/// What kind of data a file holds.
#[derive(Debug, Clone, Copy, PartialEq, Eq, Structural)]
pub enum FileCategory {
    /// Moving pictures.
    Video,
    /// Sound.
    Audio,
    /// Still pictures.
    Image,
    /// Text and office documents.
    Document,
    /// Packed files.
    Archive,
    /// Source code.
    Code,
    /// Programs and their libraries.
    Program,
    /// Files of the operating system.
    System,
    /// Everything else.
    Other,
}

impl FileCategory {
    /// The category's slot in a per-category table.
    pub open spec fn bits(self) -> u8 {
        match self {
            FileCategory::Video => 0,
            FileCategory::Audio => 1,
            FileCategory::Image => 2,
            FileCategory::Document => 3,
            FileCategory::Archive => 4,
            FileCategory::Code => 5,
            FileCategory::Program => 6,
            FileCategory::System => 7,
            FileCategory::Other => 8,
        }
    }

    /// The category's slot in a per-category table.
    pub fn as_bits(self) -> (bits: u8)
        ensures
            bits == self.bits(),
            bits < CATEGORY_COUNT,
    {
        match self {
            FileCategory::Video => 0,
            FileCategory::Audio => 1,
            FileCategory::Image => 2,
            FileCategory::Document => 3,
            FileCategory::Archive => 4,
            FileCategory::Code => 5,
            FileCategory::Program => 6,
            FileCategory::System => 7,
            FileCategory::Other => 8,
        }
    }

    /// The category at a slot; slots out of range hold the last one.
    pub fn from_bits(bits: u8) -> (category: Self)
        ensures
            bits < CATEGORY_COUNT ==> category.bits() == bits,
            bits >= CATEGORY_COUNT ==> category is Other,
    {
        match bits {
            0 => FileCategory::Video,
            1 => FileCategory::Audio,
            2 => FileCategory::Image,
            3 => FileCategory::Document,
            4 => FileCategory::Archive,
            5 => FileCategory::Code,
            6 => FileCategory::Program,
            7 => FileCategory::System,
            _ => FileCategory::Other,
        }
    }
}

} // verus!

use vstd::prelude::*;

verus! {

/// Why a value could not be read or written.
#[derive(Debug, Clone, Copy, PartialEq, Eq, Structural)]
pub enum DataError {
    /// A string's length prefix is malformed or larger than `i32::MAX`.
    StringLength,
    /// A string's bytes are not valid UTF-8.
    InvalidUtf8,
    /// A string is too long to be written with a length prefix.
    StringTooLong,
    /// A record count read from the input is negative.
    NegativeCount(i32),
    /// The flag definition file carries another version than 100.
    FlagDefsVersion(i32),
    /// The animation count of a character definition is outside `0..=2000`.
    AnimationCount(i32),
    /// The keyframe count of an animation is outside `0..=10000`.
    KeyFrameCount(i32),
    /// The frame count of a character definition is outside `0..=20000`.
    FrameCount(i32),
    /// The part count of a frame is outside `0..=32`.
    PartsCount { count: i32, frame_index: i32 },
    /// A monster field carries a data type with no known payload.
    UnknownDataType(i32),
    /// A sprite sub-flag refers to a flag definition that does not exist.
    FlagDefIndex { index: i32, max: usize },
}

/// The error of every reader and writer of the library.
#[derive(Debug, Clone, Copy, PartialEq, Eq, Structural)]
pub enum SaveError {
    /// The input ended before the value being read was complete.
    UnexpectedEof,
    /// The input holds a value that the format does not allow.
    InvalidData(DataError),
}

} // verus!

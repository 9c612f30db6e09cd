//! What can go wrong, and how it is reported.

use vstd::prelude::*;

verus! {

/// The broad category of an [`Error`].
#[derive(Clone, Copy, Debug, PartialEq, Eq, Structural)]
pub enum ErrorKind {
    /// The image breaks a rule of the format.
    InvalidData,
    /// The caller asked for something that makes no sense.
    InvalidInput,
    /// A path names nothing.
    NotFound,
    /// The operation is part of the format but not of this library.
    Unsupported,
    /// The backing store ended before the bytes that were asked for.
    UnexpectedEof,
}

/// An error, by the rule that was broken.
#[derive(Clone, Copy, Debug, PartialEq, Eq, Structural)]
pub enum Error {
    /// The image does not start with the magic number.
    WrongMagic,
    /// The major version is neither 3 nor 4.
    UnsupportedVersion,
    /// The byte order mark is not 0xFFFE.
    ByteOrderMark,
    /// The sector shift is not the one of the version.
    SectorShift,
    /// The mini sector shift is not 6.
    MiniSectorShift,
    /// The mini stream cutoff is not 4096.
    MiniStreamCutoff,
    /// A DIFAT entry is neither a sector index nor free.
    DifatEntry,
    /// The chain of DIFAT sectors is not as long as the header says.
    DifatChainLength,
    /// The number of FAT sectors is not the one that the header gives.
    FatSectorCount,
    /// The tables address more than this machine can.
    TooLarge,
    /// A DIFAT entry names a sector outside the FAT.
    DifatIndex,
    /// A sector listed in the DIFAT is not marked as a FAT sector.
    FatSectorNotMarked,
    /// A FAT entry points outside the FAT.
    FatPointer,
    /// Two FAT entries point to the same sector.
    FatPointedTwice,
    /// The chain of MiniFAT sectors is not as long as the header says.
    MinifatChainLength,
    /// A MiniFAT entry points outside the MiniFAT.
    MinifatPointer,
    /// Two MiniFAT entries point to the same mini sector.
    MinifatPointedTwice,
    /// A chain leaves the table or does not end.
    BrokenChain,
    /// The directory holds no entry at all.
    NoRootEntry,
    /// The name length of a directory entry is odd or above 64.
    NameLength,
    /// The name of a directory entry is not followed by a zero.
    NameTerminator,
    /// The name of a directory entry holds a character that no name may hold.
    NameCharacter,
    /// The colour of a directory entry is neither red nor black.
    Color,
    /// The left sibling of a directory entry is no stream ID.
    LeftSibling,
    /// The right sibling of a directory entry is no stream ID.
    RightSibling,
    /// The child of a directory entry is no stream ID.
    Child,
    /// The root entry is not named "Root Entry".
    RootName,
    /// The length of the root entry is not 64 times the length of the MiniFAT.
    RootStreamLen,
    /// An entry is reached twice from the root.
    DirectoryLoop,
    /// A sibling of a reachable entry lies outside the directory.
    SiblingIndex,
    /// A sibling does not come after its parent in the order of names.
    NameOrdering,
    /// A child of a reachable entry lies outside the directory.
    ChildIndex,
    /// A seek would leave the stream.
    SeekOutOfRange,
    /// The path names an entry that is not a stream.
    NotAStream,
    /// The path does not start with a slash.
    PathNotAbsolute,
    /// A component of the path is empty.
    EmptyName,
    /// A component of the path has more than 31 code units.
    NameTooLong,
    /// A component of the path holds a character that no name may hold.
    ForbiddenCharacter,
    /// No entry has this path.
    NoSuchObject,
    /// A 110th FAT sector would be needed.
    DifatOverflow,
    /// A write would take a stream out of the mini stream.
    MiniStreamMigration,
    /// Entries cannot be created, removed or renamed.
    DirectoryUpdate,
    /// The backing store is shorter than the image needs.
    UnexpectedEof,
}

impl Error {
    pub open spec fn kind_spec(self) -> ErrorKind {
        match self {
            Error::SeekOutOfRange
            | Error::NotAStream
            | Error::PathNotAbsolute
            | Error::EmptyName
            | Error::NameTooLong
            | Error::ForbiddenCharacter => ErrorKind::InvalidInput,
            Error::NoSuchObject => ErrorKind::NotFound,
            Error::DifatOverflow
            | Error::MiniStreamMigration
            | Error::DirectoryUpdate => ErrorKind::Unsupported,
            Error::UnexpectedEof => ErrorKind::UnexpectedEof,
            _ => ErrorKind::InvalidData,
        }
    }

    /// The category of this error.
    #[verifier::when_used_as_spec(kind_spec)]
    pub fn kind(self) -> (r: ErrorKind)
        ensures
            r == self.kind_spec(),
    {
        match self {
            Error::SeekOutOfRange
            | Error::NotAStream
            | Error::PathNotAbsolute
            | Error::EmptyName
            | Error::NameTooLong
            | Error::ForbiddenCharacter => ErrorKind::InvalidInput,
            Error::NoSuchObject => ErrorKind::NotFound,
            Error::DifatOverflow
            | Error::MiniStreamMigration
            | Error::DirectoryUpdate => ErrorKind::Unsupported,
            Error::UnexpectedEof => ErrorKind::UnexpectedEof,
            _ => ErrorKind::InvalidData,
        }
    }

    /// The text of the message of an error.
    pub open spec fn message_text(self) -> Seq<char> {
        match self {
            Error::WrongMagic => "Invalid CFB file (wrong magic number)"@,
            Error::UnsupportedVersion => "CFB version is not supported"@,
            Error::ByteOrderMark => "Invalid CFB byte order mark"@,
            Error::SectorShift => "Incorrect sector shift for CFB version"@,
            Error::MiniSectorShift => "Incorrect mini sector shift"@,
            Error::MiniStreamCutoff => "Invalid mini stream cutoff value"@,
            Error::DifatEntry => "Invalid sector index in DIFAT"@,
            Error::DifatChainLength => "Incorrect DIFAT chain length"@,
            Error::FatSectorCount => "Incorrect number of FAT sectors"@,
            Error::TooLarge => "Compound file too large for this machine"@,
            Error::DifatIndex => "Malformed DIFAT (index out of bounds)"@,
            Error::FatSectorNotMarked => "Malformed FAT (sector not marked as FAT)"@,
            Error::FatPointer => "Malformed FAT (sector points out of bounds)"@,
            Error::FatPointedTwice => "Malformed FAT (sector pointed to twice)"@,
            Error::MinifatChainLength => "Incorrect MiniFAT chain length"@,
            Error::MinifatPointer => "Malformed MiniFAT (mini sector points out of bounds)"@,
            Error::MinifatPointedTwice => "Malformed MiniFAT (mini sector pointed to twice)"@,
            Error::BrokenChain => "Malformed sector chain"@,
            Error::NoRootEntry => "Malformed directory (no root entry)"@,
            Error::NameLength => "Invalid name length in directory entry"@,
            Error::NameTerminator => "Directory entry name must be null-terminated"@,
            Error::NameCharacter => "Invalid character in directory entry name"@,
            Error::Color => "Invalid color in directory entry"@,
            Error::LeftSibling => "Invalid left sibling in directory entry"@,
            Error::RightSibling => "Invalid right sibling in directory entry"@,
            Error::Child => "Invalid child in directory entry"@,
            Error::RootName => "Malformed directory (root name)"@,
            Error::RootStreamLen => "Malformed directory (root stream len)"@,
            Error::DirectoryLoop => "Malformed directory (loop in tree)"@,
            Error::SiblingIndex => "Malformed directory (sibling index)"@,
            Error::NameOrdering => "Malformed directory (name ordering)"@,
            Error::ChildIndex => "Malformed directory (child index)"@,
            Error::SeekOutOfRange => "Cannot seek outside of stream"@,
            Error::NotAStream => "not a stream"@,
            Error::PathNotAbsolute => "Invalid path (must start with a slash)"@,
            Error::EmptyName => "Object name cannot be empty"@,
            Error::NameTooLong => "Object name cannot be more than 31 UTF-16 code units"@,
            Error::ForbiddenCharacter => "Object name cannot contain this character"@,
            Error::NoSuchObject => "No such object"@,
            Error::DifatOverflow => "more than 109 DIFAT entries not yet supported"@,
            Error::MiniStreamMigration => "migrating out of mini stream not supported"@,
            Error::DirectoryUpdate => "changing the directory tree not yet supported"@,
            Error::UnexpectedEof => "failed to fill whole buffer"@,
        }
    }

    /// A sentence for a human reader.
    pub fn message(self) -> (r: &'static str)
        ensures
            r@ == self.message_text(),
    {
        match self {
            Error::WrongMagic => "Invalid CFB file (wrong magic number)",
            Error::UnsupportedVersion => "CFB version is not supported",
            Error::ByteOrderMark => "Invalid CFB byte order mark",
            Error::SectorShift => "Incorrect sector shift for CFB version",
            Error::MiniSectorShift => "Incorrect mini sector shift",
            Error::MiniStreamCutoff => "Invalid mini stream cutoff value",
            Error::DifatEntry => "Invalid sector index in DIFAT",
            Error::DifatChainLength => "Incorrect DIFAT chain length",
            Error::FatSectorCount => "Incorrect number of FAT sectors",
            Error::TooLarge => "Compound file too large for this machine",
            Error::DifatIndex => "Malformed DIFAT (index out of bounds)",
            Error::FatSectorNotMarked => "Malformed FAT (sector not marked as FAT)",
            Error::FatPointer => "Malformed FAT (sector points out of bounds)",
            Error::FatPointedTwice => "Malformed FAT (sector pointed to twice)",
            Error::MinifatChainLength => "Incorrect MiniFAT chain length",
            Error::MinifatPointer => "Malformed MiniFAT (mini sector points out of bounds)",
            Error::MinifatPointedTwice => "Malformed MiniFAT (mini sector pointed to twice)",
            Error::BrokenChain => "Malformed sector chain",
            Error::NoRootEntry => "Malformed directory (no root entry)",
            Error::NameLength => "Invalid name length in directory entry",
            Error::NameTerminator => "Directory entry name must be null-terminated",
            Error::NameCharacter => "Invalid character in directory entry name",
            Error::Color => "Invalid color in directory entry",
            Error::LeftSibling => "Invalid left sibling in directory entry",
            Error::RightSibling => "Invalid right sibling in directory entry",
            Error::Child => "Invalid child in directory entry",
            Error::RootName => "Malformed directory (root name)",
            Error::RootStreamLen => "Malformed directory (root stream len)",
            Error::DirectoryLoop => "Malformed directory (loop in tree)",
            Error::SiblingIndex => "Malformed directory (sibling index)",
            Error::NameOrdering => "Malformed directory (name ordering)",
            Error::ChildIndex => "Malformed directory (child index)",
            Error::SeekOutOfRange => "Cannot seek outside of stream",
            Error::NotAStream => "not a stream",
            Error::PathNotAbsolute => "Invalid path (must start with a slash)",
            Error::EmptyName => "Object name cannot be empty",
            Error::NameTooLong => "Object name cannot be more than 31 UTF-16 code units",
            Error::ForbiddenCharacter => "Object name cannot contain this character",
            Error::NoSuchObject => "No such object",
            Error::DifatOverflow => "more than 109 DIFAT entries not yet supported",
            Error::MiniStreamMigration => "migrating out of mini stream not supported",
            Error::DirectoryUpdate => "changing the directory tree not yet supported",
            Error::UnexpectedEof => "failed to fill whole buffer",
        }
    }
}

} // verus!

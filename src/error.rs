use vstd::prelude::*;

verus! {

/// Declared so that a failed name conversion can be carried in [`Error`].
#[verifier::external_type_specification]
#[verifier::external_body]
pub struct ExFromUtf8Error(std::string::FromUtf8Error);

/// Partition table errors.
#[derive(Debug)]
pub enum Error {
    /// Two or more partitions with the same name were found.
    DuplicatePartitions(String),
    /// The checksum in the binary data does not match the computed value.
    InvalidChecksum { expected: Vec<u8>, computed: Vec<u8> },
    /// The data/ota partition must be exactly 0x2000 bytes long.
    InvalidOtadataPartitionSize,
    /// The length of the binary data is not a multiple of 32.
    LengthNotMultipleOf32,
    /// Multiple partitions with type 'app' and subtype 'factory' were found.
    MultipleFactoryPartitions,
    /// Multiple partitions with type 'data' and subtype 'ota' were found.
    MultipleOtadataPartitions,
    /// No partition of type 'app' was found in the partition table.
    NoAppPartition,
    /// No end marker was found in the binary data.
    NoEndMarker,
    /// Two partitions are overlapping each other.
    OverlappingPartitions(String, String),
    /// Partition is above the maximum supported size of 16 MiB.
    PartitionTooLarge(String),
    /// The partition is not correctly aligned.
    UnalignedPartition,
    /// A binary record before the end marker lacks the entry magic bytes.
    MalformedRecord,
    /// A CSV row (counted from zero among the rows that hold entries) has a
    /// field that cannot be read, or too few or too many fields.
    InvalidCsvRow(usize),
    /// An error which originated in the `csv` package, with its message.
    CsvError(String),
    /// A partition name in the binary data is not valid UTF-8.
    FromUtf8Error(std::string::FromUtf8Error),
}

/// What an [`Error`] says, with strings and byte vectors as sequences.
pub enum ErrorView {
    DuplicatePartitions(Seq<char>),
    InvalidChecksum { expected: Seq<u8>, computed: Seq<u8> },
    InvalidOtadataPartitionSize,
    LengthNotMultipleOf32,
    MultipleFactoryPartitions,
    MultipleOtadataPartitions,
    NoAppPartition,
    NoEndMarker,
    OverlappingPartitions(Seq<char>, Seq<char>),
    PartitionTooLarge(Seq<char>),
    UnalignedPartition,
    MalformedRecord,
    InvalidCsvRow(nat),
    CsvError(Seq<char>),
    FromUtf8Error,
}

impl View for Error {
    type V = ErrorView;

    open spec fn view(&self) -> ErrorView {
        match self {
            Error::DuplicatePartitions(n) => ErrorView::DuplicatePartitions(n@),
            Error::InvalidChecksum { expected, computed } => ErrorView::InvalidChecksum {
                expected: expected@,
                computed: computed@,
            },
            Error::InvalidOtadataPartitionSize => ErrorView::InvalidOtadataPartitionSize,
            Error::LengthNotMultipleOf32 => ErrorView::LengthNotMultipleOf32,
            Error::MultipleFactoryPartitions => ErrorView::MultipleFactoryPartitions,
            Error::MultipleOtadataPartitions => ErrorView::MultipleOtadataPartitions,
            Error::NoAppPartition => ErrorView::NoAppPartition,
            Error::NoEndMarker => ErrorView::NoEndMarker,
            Error::OverlappingPartitions(a, b) => ErrorView::OverlappingPartitions(a@, b@),
            Error::PartitionTooLarge(n) => ErrorView::PartitionTooLarge(n@),
            Error::UnalignedPartition => ErrorView::UnalignedPartition,
            Error::MalformedRecord => ErrorView::MalformedRecord,
            Error::InvalidCsvRow(i) => ErrorView::InvalidCsvRow(*i as nat),
            Error::CsvError(m) => ErrorView::CsvError(m@),
            Error::FromUtf8Error(_) => ErrorView::FromUtf8Error,
        }
    }
}

} // verus!

//! Decoding and re-encoding of MARC21 records: a 24-byte leader, a directory of
//! 12-byte entries and a field-data region, read in place or copied into owned
//! records, with the window logic of a streaming reader and of a block reader.

pub mod error;
pub mod laws;
pub mod marcrecord;
pub mod ownedrecord;
pub mod parsedrecord;
pub mod reader;
pub mod record;
pub mod util;

pub use error::MarcError;
pub use marcrecord::{
    MarcDirectory, MarcDirectoryEntryRef, MarcHeader, MarcRecord, MarcRecordBatch,
    MarcRecordEntries, MarcRecordFieldIter, MarcRecordFieldIterVec,
};
pub use ownedrecord::OwnedRecord;
pub use parsedrecord::{
    AuthorityRecordCharacterCodingScheme, AuthorityRecordMeta, AuthorityRecordStatus,
    ParsedRecord, ParsedRecordFieldIter, RecordMeta,
};
pub use reader::{AdvanceStep, BufferedMarcReader, MarcReader};
pub use record::{
    OwnedRecordField, Record, RecordField, RecordType, Subfield, SubfieldIter,
};

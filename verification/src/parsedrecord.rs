//! Records whose leader has been decoded for their kind, with the field
//! data in a buffer of their own.

use vstd::prelude::*;
use crate::error::MarcError;
use crate::marcrecord::{
    directory_of, entry_len, entry_start, entry_tag, leader_record_type, payload_of,
    record_fields, well_formed, window_ok, MarcDirectory, MarcRecord,
};
use crate::record::{
    field_views, keeps_tag, lemma_first_index, lemma_next_match,
    lemma_selected_take, next_match, selected, Record, RecordField, RecordType, FIELD_SEPARATOR,
};

verus! {

/// The status of an authority record, from byte 5 of its leader.
#[derive(Debug, PartialEq, Eq, Clone, Copy, Structural)]
pub enum AuthorityRecordStatus {
    IncreaseEncodingLevel,
    Corrected,
    Deleted,
    New,
    Obsolete,
    Split,
    Replaced,
}

/// The character coding scheme of an authority record, from byte 9 of its
/// leader.
#[derive(Debug, PartialEq, Eq, Clone, Copy, Structural)]
pub enum AuthorityRecordCharacterCodingScheme {
    Marc8,
    Unicode,
}

/// The status that a byte of the leader names, if it names one.
pub open spec fn status_of(code: u8) -> Option<AuthorityRecordStatus> {
    if code == 0x61 {
        Some(AuthorityRecordStatus::IncreaseEncodingLevel)
    } else if code == 0x63 {
        Some(AuthorityRecordStatus::Corrected)
    } else if code == 0x64 {
        Some(AuthorityRecordStatus::Deleted)
    } else if code == 0x6e {
        Some(AuthorityRecordStatus::New)
    } else if code == 0x6f {
        Some(AuthorityRecordStatus::Obsolete)
    } else if code == 0x73 {
        Some(AuthorityRecordStatus::Split)
    } else if code == 0x78 {
        Some(AuthorityRecordStatus::Replaced)
    } else {
        None
    }
}

/// What the leader of an authority record says of it: the status and the
/// coding scheme. A leader of another kind of record has no decoder, a
/// status byte that names no status is malformed, and the only coding
/// scheme that is decoded is Unicode, `'a'`.
pub open spec fn leader_meta(leader: Seq<u8>) -> Result<
    (AuthorityRecordStatus, AuthorityRecordCharacterCodingScheme),
    MarcError,
> {
    if leader_record_type(leader) is Err {
        Err(MarcError::NotImplemented)
    } else if status_of(leader[5]) is None {
        Err(MarcError::Malformed)
    } else if leader[9] != 0x61 {
        Err(MarcError::NotImplemented)
    } else {
        Ok((status_of(leader[5])->0, AuthorityRecordCharacterCodingScheme::Unicode))
    }
}

/// The sum of a list of lengths.
pub open spec fn total_length(lengths: Seq<usize>) -> nat
    decreases lengths.len(),
{
    if lengths.len() == 0 {
        0
    } else {
        total_length(lengths.drop_last()) + lengths.last() as nat
    }
}

/// What is known of an authority record besides its content: what the
/// leader says, and for each field the tag and where its content lies.
pub struct AuthorityRecordMeta {
    record_type: RecordType,
    status: AuthorityRecordStatus,
    character_coding_scheme: AuthorityRecordCharacterCodingScheme,
    field_types: Vec<usize>,
    field_offsets: Vec<usize>,
    field_lengths: Vec<usize>,
}

impl AuthorityRecordMeta {
    /// Whether there is one offset and one length for each tag.
    pub closed spec fn wf(&self) -> bool {
        &&& self.field_types@.len() == self.field_offsets@.len()
        &&& self.field_types@.len() == self.field_lengths@.len()
    }

    /// The tags of the fields.
    pub closed spec fn tags(&self) -> Seq<usize> {
        self.field_types@
    }

    /// Where the content of each field starts.
    pub closed spec fn offsets(&self) -> Seq<usize> {
        self.field_offsets@
    }

    /// How long the content of each field is.
    pub closed spec fn lengths(&self) -> Seq<usize> {
        self.field_lengths@
    }

    /// The kind of record.
    pub closed spec fn kind(&self) -> RecordType {
        self.record_type
    }

    /// The status of the record.
    pub closed spec fn spec_status(&self) -> AuthorityRecordStatus {
        self.status
    }

    /// The character coding scheme of the record.
    pub closed spec fn spec_coding_scheme(&self) -> AuthorityRecordCharacterCodingScheme {
        self.character_coding_scheme
    }

    /// The status of the record.
    #[verifier::when_used_as_spec(spec_status)]
    pub fn status(&self) -> (r: AuthorityRecordStatus)
        ensures
            r == self.spec_status(),
    {
        self.status
    }

    /// The character coding scheme of the record.
    #[verifier::when_used_as_spec(spec_coding_scheme)]
    pub fn character_coding_scheme(&self) -> (r: AuthorityRecordCharacterCodingScheme)
        ensures
            r == self.spec_coding_scheme(),
    {
        self.character_coding_scheme
    }

    /// A well-formed value has as many offsets and lengths as tags.
    pub proof fn lemma_wf(&self)
        requires
            self.wf(),
        ensures
            self.offsets().len() == self.tags().len(),
            self.lengths().len() == self.tags().len(),
    {
    }

    /// What is known of a new Unicode authority record without fields.
    pub fn empty_new() -> (r: AuthorityRecordMeta)
        ensures
            r.wf(),
            r.tags().len() == 0,
            r.kind() == RecordType::Authority,
            r.status() == AuthorityRecordStatus::New,
            r.character_coding_scheme() == AuthorityRecordCharacterCodingScheme::Unicode,
    {
        AuthorityRecordMeta {
            record_type: RecordType::Authority,
            status: AuthorityRecordStatus::New,
            character_coding_scheme: AuthorityRecordCharacterCodingScheme::Unicode,
            field_types: Vec::new(),
            field_offsets: Vec::new(),
            field_lengths: Vec::new(),
        }
    }

    /// Decodes the leader of `r` and the entries of `dir`. Each field gets
    /// the tag of its entry, as offset the entry's start plus one and as
    /// length the entry's length less one: the delimiter before the content
    /// is left out. An entry of length zero is malformed.
    pub fn new(r: &MarcRecord, dir: &MarcDirectory) -> (m: Result<AuthorityRecordMeta, MarcError>)
        ensures
            match m {
                Ok(m) => {
                    &&& leader_meta(r.leader()) == Ok::<_, MarcError>((m.status(), m.character_coding_scheme()))
                    &&& m.kind() == RecordType::Authority
                    &&& m.wf()
                    &&& m.tags().len() == dir@.len() / 12
                    &&& forall|i: int|
                        0 <= i < dir@.len() / 12 ==> {
                            &&& #[trigger] m.tags()[i] == entry_tag(dir@, i)
                            &&& m.offsets()[i] == entry_start(dir@, i) + 1
                            &&& m.lengths()[i] == entry_len(dir@, i) - 1
                        }
                },
                Err(e) => match leader_meta(r.leader()) {
                    Ok(_) => e == MarcError::Malformed && exists|i: int|
                        0 <= i < dir@.len() / 12 && entry_len(dir@, i) == 0,
                    Err(l) => e == l,
                },
            },
    {
        let header: &[u8] = r.header().bytes();
        let t: RecordType = match r.header().record_type() {
            Ok(t) => t,
            Err(_) => {
                return Err(MarcError::NotImplemented);
            },
        };
        let code: u8 = header[5];
        let s: AuthorityRecordStatus = if code == 0x61 {
            AuthorityRecordStatus::IncreaseEncodingLevel
        } else if code == 0x63 {
            AuthorityRecordStatus::Corrected
        } else if code == 0x64 {
            AuthorityRecordStatus::Deleted
        } else if code == 0x6e {
            AuthorityRecordStatus::New
        } else if code == 0x6f {
            AuthorityRecordStatus::Obsolete
        } else if code == 0x73 {
            AuthorityRecordStatus::Split
        } else if code == 0x78 {
            AuthorityRecordStatus::Replaced
        } else {
            return Err(MarcError::Malformed);
        };
        if header[9] != 0x61 {
            return Err(MarcError::NotImplemented);
        }
        let coding_scheme = AuthorityRecordCharacterCodingScheme::Unicode;
        let dir_len: usize = dir.num_entries();
        let mut field_types: Vec<usize> = Vec::new();
        let mut field_offsets: Vec<usize> = Vec::new();
        let mut field_lengths: Vec<usize> = Vec::new();
        let mut i: usize = 0;
        while i < dir_len
            invariant
                0 <= i <= dir_len,
                dir_len == dir@.len() / 12,
                leader_meta(r.leader()) is Ok,
                field_types@.len() == i,
                field_offsets@.len() == i,
                field_lengths@.len() == i,
                forall|k: int|
                    0 <= k < i ==> {
                        &&& #[trigger] field_types@[k] == entry_tag(dir@, k)
                        &&& field_offsets@[k] == entry_start(dir@, k) + 1
                        &&& field_lengths@[k] == entry_len(dir@, k) - 1
                    },
            decreases dir_len - i,
        {
            let entry = dir.get_entry(i);
            let len: usize = entry.len();
            if len == 0 {
                assert(entry_len(dir@, i as int) == 0);
                return Err(MarcError::Malformed);
            }
            field_types.push(entry.entry_type());
            // skip the delimiter before the content
            field_offsets.push(entry.start() + 1);
            field_lengths.push(len - 1);
            i += 1;
        }
        Ok(
            AuthorityRecordMeta {
                record_type: t,
                status: s,
                character_coding_scheme: coding_scheme,
                field_types,
                field_offsets,
                field_lengths,
            },
        )
    }

    /// The number of fields.
    pub fn num_fields(&self) -> (r: usize)
        ensures
            r == self.tags().len(),
    {
        self.field_types.len()
    }

    /// Appends a field that starts where the fields so far end.
    pub fn add_field(&mut self, field_type: usize, field_start: usize, field_len: usize)
        requires
            old(self).wf(),
            total_length(old(self).lengths()) == field_start,
        ensures
            final(self).wf(),
            final(self).tags() == old(self).tags().push(field_type),
            final(self).offsets() == old(self).offsets().push(field_start),
            final(self).lengths() == old(self).lengths().push(field_len),
            final(self).kind() == old(self).kind(),
            final(self).status() == old(self).status(),
            final(self).character_coding_scheme() == old(self).character_coding_scheme(),
    {
        self.field_types.push(field_type);
        self.field_offsets.push(field_start);
        self.field_lengths.push(field_len);
    }

    /// The kind of record.
    pub fn record_type(&self) -> (r: RecordType)
        ensures
            r == self.kind(),
    {
        self.record_type
    }
}

/// What is known of a record besides its content, by kind of record.
pub enum RecordMeta {
    AuthorityMeta(AuthorityRecordMeta),
}

impl RecordMeta {
    /// Whether there is one offset and one length for each tag.
    pub open spec fn wf(&self) -> bool {
        match self {
            RecordMeta::AuthorityMeta(record_meta) => record_meta.wf(),
        }
    }

    /// The tags of the fields.
    pub open spec fn tags(&self) -> Seq<usize> {
        match self {
            RecordMeta::AuthorityMeta(record_meta) => record_meta.tags(),
        }
    }

    /// Where the content of each field starts.
    pub open spec fn offsets(&self) -> Seq<usize> {
        match self {
            RecordMeta::AuthorityMeta(record_meta) => record_meta.offsets(),
        }
    }

    /// How long the content of each field is.
    pub open spec fn lengths(&self) -> Seq<usize> {
        match self {
            RecordMeta::AuthorityMeta(record_meta) => record_meta.lengths(),
        }
    }

    /// The kind of record.
    pub open spec fn kind(&self) -> RecordType {
        match self {
            RecordMeta::AuthorityMeta(record_meta) => record_meta.kind(),
        }
    }

    /// A well-formed value has as many offsets and lengths as tags.
    pub proof fn lemma_wf(&self)
        requires
            self.wf(),
        ensures
            self.offsets().len() == self.tags().len(),
            self.lengths().len() == self.tags().len(),
    {
        match self {
            RecordMeta::AuthorityMeta(record_meta) => record_meta.lemma_wf(),
        }
    }

    /// What is known of a new record of kind `_t` without fields.
    pub fn empty_new(_t: RecordType) -> (r: RecordMeta)
        ensures
            r.wf(),
            r.tags().len() == 0,
            r.kind() == _t,
            r matches RecordMeta::AuthorityMeta(m) && m.status() == AuthorityRecordStatus::New
                && m.character_coding_scheme() == AuthorityRecordCharacterCodingScheme::Unicode,
    {
        match _t {
            RecordType::Authority => RecordMeta::AuthorityMeta(AuthorityRecordMeta::empty_new()),
        }
    }

    /// Decodes the leader of `r` and the entries of `d`, by the kind of
    /// record that the leader names.
    pub fn new(r: &MarcRecord, d: &MarcDirectory) -> (m: Result<RecordMeta, MarcError>)
        ensures
            m matches Ok(RecordMeta::AuthorityMeta(a)) ==> {
                &&& leader_meta(r.leader()) == Ok::<_, MarcError>((a.status(), a.character_coding_scheme()))
                &&& a.kind() == RecordType::Authority
                &&& a.wf()
                &&& a.tags().len() == d@.len() / 12
                &&& forall|i: int|
                    0 <= i < d@.len() / 12 ==> {
                        &&& #[trigger] a.tags()[i] == entry_tag(d@, i)
                        &&& a.offsets()[i] == entry_start(d@, i) + 1
                        &&& a.lengths()[i] == entry_len(d@, i) - 1
                    }
            },
            m matches Err(e) ==> match leader_meta(r.leader()) {
                Ok(_) => e == MarcError::Malformed && exists|i: int|
                    0 <= i < d@.len() / 12 && entry_len(d@, i) == 0,
                Err(l) => e == l,
            },
    {
        match r.header().record_type() {
            Ok(RecordType::Authority) => match AuthorityRecordMeta::new(r, d) {
                Ok(m) => Ok(RecordMeta::AuthorityMeta(m)),
                Err(e) => Err(e),
            },
            Err(_) => {
                assert(leader_meta(r.leader()) == Err::<
                    (AuthorityRecordStatus, AuthorityRecordCharacterCodingScheme),
                    MarcError,
                >(MarcError::NotImplemented));
                Err(MarcError::NotImplemented)
            },
        }
    }

    /// The kind of record.
    pub fn record_type(&self) -> (r: RecordType)
        ensures
            r == self.kind(),
    {
        match self {
            Self::AuthorityMeta(record_meta) => record_meta.record_type(),
        }
    }

    /// The tag of field `idx`.
    pub fn get_field_type(&self, idx: usize) -> (r: usize)
        requires
            idx < self.tags().len(),
        ensures
            r == self.tags()[idx as int],
    {
        match self {
            Self::AuthorityMeta(record_meta) => record_meta.field_types[idx],
        }
    }

    /// Where the content of field `idx` starts.
    pub fn get_field_offset(&self, idx: usize) -> (r: usize)
        requires
            idx < self.offsets().len(),
        ensures
            r == self.offsets()[idx as int],
    {
        match self {
            Self::AuthorityMeta(record_meta) => record_meta.field_offsets[idx],
        }
    }

    /// How long the content of field `idx` is.
    pub fn get_field_length(&self, idx: usize) -> (r: usize)
        requires
            idx < self.lengths().len(),
        ensures
            r == self.lengths()[idx as int],
    {
        match self {
            Self::AuthorityMeta(record_meta) => record_meta.field_lengths[idx],
        }
    }

    /// Field `idx`, with its content taken from `record_data`.
    pub fn get_field<'s>(&self, idx: usize, record_data: &'s [u8]) -> (r: RecordField<'s>)
        requires
            self.wf(),
            idx < self.tags().len(),
            self.offsets()[idx as int] + self.lengths()[idx as int] <= record_data@.len(),
        ensures
            r@ == (
                self.tags()[idx as int],
                record_data@.subrange(
                    self.offsets()[idx as int] as int,
                    self.offsets()[idx as int] + self.lengths()[idx as int],
                ),
            ),
    {
        proof {
            self.lemma_wf();
        }
        assert(record_data.len() == record_data@.len());
        let field_type: usize = self.get_field_type(idx);
        let field_offset: usize = self.get_field_offset(idx);
        let field_length: usize = self.get_field_length(idx);
        RecordField { field_type, data: &record_data[field_offset..field_offset + field_length] }
    }

    /// The number of fields.
    pub fn num_fields(&self) -> (r: usize)
        ensures
            r == self.tags().len(),
    {
        match self {
            Self::AuthorityMeta(record_meta) => record_meta.num_fields(),
        }
    }

    /// Appends a field that starts where the fields so far end.
    pub fn add_field(&mut self, field_type: usize, field_start: usize, field_len: usize)
        requires
            old(self).wf(),
            total_length(old(self).lengths()) == field_start,
        ensures
            final(self).wf(),
            final(self).tags() == old(self).tags().push(field_type),
            final(self).offsets() == old(self).offsets().push(field_start),
            final(self).lengths() == old(self).lengths().push(field_len),
            final(self).kind() == old(self).kind(),
    {
        match self {
            Self::AuthorityMeta(record_meta) => {
                record_meta.add_field(field_type, field_start, field_len)
            },
        }
    }
}

/// A record with what is known of it and with its field data in a buffer
/// of its own.
pub struct ParsedRecord {
    meta: RecordMeta,
    field_data: Vec<u8>,
}

impl ParsedRecord {
    /// What is known of the record.
    pub closed spec fn meta(&self) -> RecordMeta {
        self.meta
    }

    /// The buffer that holds the contents.
    pub closed spec fn buffer(&self) -> Seq<u8> {
        self.field_data@
    }

    /// Whether the content of every field lies in the buffer.
    pub open spec fn wf(&self) -> bool {
        &&& self.meta().wf()
        &&& self.meta().offsets().len() == self.meta().tags().len()
        &&& self.meta().lengths().len() == self.meta().tags().len()
        &&& forall|i: int|
            0 <= i < self.meta().tags().len() ==> #[trigger] self.meta().offsets()[i]
                + self.meta().lengths()[i] <= self.buffer().len()
    }

    /// Whether the contents fill the buffer, so that a field can be appended.
    pub open spec fn packed(&self) -> bool {
        total_length(self.meta().lengths()) == self.buffer().len()
    }

    /// The fields: each tag with the part of the buffer that is its content.
    pub open spec fn fields(&self) -> Seq<(usize, Seq<u8>)> {
        Seq::new(
            self.meta().tags().len(),
            |i: int|
                (
                    self.meta().tags()[i],
                    self.buffer().subrange(
                        self.meta().offsets()[i] as int,
                        self.meta().offsets()[i] + self.meta().lengths()[i],
                    ),
                ),
        )
    }

    /// Decodes a well-formed record whose leader can be decoded, and copies
    /// its field data.
    pub fn new(r: &MarcRecord) -> (p: Result<ParsedRecord, MarcError>)
        ensures
            match p {
                Ok(p) => {
                    &&& well_formed(r.body())
                    &&& p.meta() matches RecordMeta::AuthorityMeta(m) && leader_meta(r.leader())
                        == Ok::<_, MarcError>((m.status(), m.character_coding_scheme()))
                    &&& p.meta().kind() == RecordType::Authority
                    &&& p.wf()
                    &&& p.buffer() == payload_of(r.body())
                    &&& p.fields() == record_fields(r.body())
                },
                Err(e) => if well_formed(r.body()) {
                    leader_meta(r.leader()) == Err::<
                        (AuthorityRecordStatus, AuthorityRecordCharacterCodingScheme),
                        MarcError,
                    >(e)
                } else {
                    e == MarcError::Malformed
                },
            },
    {
        match r.entries() {
            Ok(_) => {},
            Err(e) => {
                return Err(e);
            },
        }
        let dir = match r.directory() {
            Ok(dir) => dir,
            Err(e) => {
                return Err(e);
            },
        };
        let ghost d = directory_of(r.body());
        let ghost payload = payload_of(r.body());
        let meta = match RecordMeta::new(r, &dir) {
            Ok(meta) => meta,
            Err(e) => {
                proof {
                    if leader_meta(r.leader()) is Ok {
                        let i = choose|i: int| 0 <= i < d.len() / 12 && entry_len(d, i) == 0;
                        assert(window_ok(d, payload, i));
                    }
                }
                return Err(e);
            },
        };
        let data: &[u8] = r.data();
        let data_len: usize = data.len();
        proof {
            lemma_first_index(data@, FIELD_SEPARATOR);
        }
        let p = ParsedRecord {
            meta,
            field_data: vstd::slice::slice_to_vec(&data[dir.byte_len()..data_len]),
        };
        proof {
            assert(p.buffer() == payload);
            assert forall|i: int| 0 <= i < p.meta().tags().len() implies #[trigger] p.meta().offsets()[i]
                + p.meta().lengths()[i] <= p.buffer().len() by {
                assert(window_ok(d, payload, i));
                assert(p.meta().tags()[i] == entry_tag(d, i));
            }
            assert forall|i: int| 0 <= i < p.meta().tags().len() implies p.fields()[i]
                == record_fields(r.body())[i] by {
                assert(window_ok(d, payload, i));
                assert(p.meta().tags()[i] == entry_tag(d, i));
            }
            assert(p.fields() =~= record_fields(r.body()));
        }
        Ok(p)
    }

    /// A record of kind `t` without fields: its buffer is empty, and what
    /// is known of it is what is known of a new Unicode record.
    pub fn empty_new(t: RecordType) -> (p: ParsedRecord)
        ensures
            p.wf(),
            p.packed(),
            p.meta().kind() == t,
            p.meta() matches RecordMeta::AuthorityMeta(m) && m.status() == AuthorityRecordStatus::New
                && m.character_coding_scheme() == AuthorityRecordCharacterCodingScheme::Unicode,
            p.meta().tags() == Seq::<usize>::empty(),
            p.buffer() == Seq::<u8>::empty(),
            p.fields() == Seq::<(usize, Seq<u8>)>::empty(),
    {
        let p = ParsedRecord { meta: RecordMeta::empty_new(t), field_data: Vec::new() };
        proof {
            p.meta.lemma_wf();
            assert(p.meta().tags() =~= Seq::<usize>::empty());
            assert(p.meta().lengths() =~= Seq::<usize>::empty());
            assert(p.buffer() =~= Seq::<u8>::empty());
            assert(p.fields() =~= Seq::<(usize, Seq<u8>)>::empty());
        }
        p
    }

    /// Appends a field: its content goes to the end of the buffer.
    pub fn add_field(&mut self, field_type: usize, field_data: &[u8])
        requires
            old(self).wf(),
            old(self).packed(),
        ensures
            final(self).wf(),
            final(self).packed(),
            final(self).meta().kind() == old(self).meta().kind(),
            final(self).fields() == old(self).fields().push((field_type, field_data@)),
    {
        let start: usize = self.field_data.len();
        self.meta.add_field(field_type, start, field_data.len());
        self.field_data.extend_from_slice(field_data);
        proof {
            let n = old(self).meta().tags().len() as int;
            assert(self.buffer() =~= old(self).buffer() + field_data@);
            assert(self.meta().lengths().drop_last() =~= old(self).meta().lengths());
            assert forall|i: int| 0 <= i < n + 1 implies #[trigger] self.meta().offsets()[i]
                + self.meta().lengths()[i] <= self.buffer().len() by {
                if i < n {
                    assert(old(self).meta().offsets()[i] + old(self).meta().lengths()[i] <= old(self).buffer().len());
                }
            }
            assert forall|i: int| 0 <= i < n + 1 implies self.fields()[i] == old(self).fields().push((field_type, field_data@))[i] by {
                if i < n {
                    assert(old(self).meta().offsets()[i] + old(self).meta().lengths()[i] <= old(self).buffer().len());
                    assert(self.fields()[i].1 =~= old(self).fields()[i].1);
                } else {
                    assert(self.fields()[i].1 =~= field_data@);
                }
            }
            assert(self.fields() =~= old(self).fields().push((field_type, field_data@)));
        }
    }

    fn field_data(&self) -> (r: &[u8])
        ensures
            r@ == self.buffer(),
    {
        self.field_data.as_slice()
    }

    /// The number of fields.
    pub fn num_fields(&self) -> (r: usize)
        ensures
            r == self.fields().len(),
    {
        self.meta.num_fields()
    }

    /// Field `idx`.
    pub fn get_field(&self, idx: usize) -> (r: RecordField<'_>)
        requires
            self.wf(),
            idx < self.fields().len(),
        ensures
            r@ == self.fields()[idx as int],
    {
        proof {
            assert(self.meta().offsets()[idx as int] + self.meta().lengths()[idx as int]
                <= self.buffer().len());
        }
        self.meta.get_field(idx, self.field_data())
    }
}

/// A walk over the fields of a parsed record that keeps one tag, or all.
pub struct ParsedRecordFieldIter<'s> {
    record: &'s ParsedRecord,
    idx: usize,
    field_type: Option<usize>,
}

impl<'s> ParsedRecordFieldIter<'s> {
    /// The record that is walked.
    pub closed spec fn record(&self) -> ParsedRecord {
        *self.record
    }

    /// The index of the field that the walk looks at next.
    pub closed spec fn position(&self) -> int {
        self.idx as int
    }

    /// The tag that the walk keeps; `None` where it keeps all.
    pub closed spec fn filter(&self) -> Option<usize> {
        self.field_type
    }

    /// Starts a walk at the first field.
    pub fn new(r: &'s ParsedRecord, field_type: Option<usize>) -> (it: ParsedRecordFieldIter<'s>)
        ensures
            it.record() == *r,
            it.position() == 0,
            it.filter() == field_type,
    {
        ParsedRecordFieldIter { record: r, idx: 0, field_type }
    }

    /// Hands out the next field that the filter keeps, and moves behind it;
    /// `None` once no such field is left.
    pub fn next(&mut self) -> (r: Option<RecordField<'s>>)
        requires
            old(self).record().wf(),
        ensures
            final(self).record() == old(self).record(),
            final(self).filter() == old(self).filter(),
            ({
                let fields = old(self).record().fields();
                let j = next_match(fields, keeps_tag(old(self).filter()), old(self).position());
                if j < fields.len() {
                    r is Some && r->0@ == fields[j] && final(self).position() == j + 1
                } else {
                    r is None && final(self).position() == j
                }
            }),
    {
        let ghost fields = self.record.fields();
        let ghost keep = keeps_tag(self.field_type);
        let ghost goal = next_match(fields, keep, self.idx as int);
        while self.idx < self.record.num_fields()
            invariant
                self.record == old(self).record,
                self.record.wf(),
                self.record.fields() == fields,
                self.field_type == old(self).field_type,
                keeps_tag(self.field_type) == keep,
                next_match(fields, keep, self.idx as int) == goal,
                goal == next_match(fields, keep, old(self).idx as int),
            decreases fields.len() - self.idx,
        {
            let record: &'s ParsedRecord = self.record;
            let field = record.get_field(self.idx);
            self.idx += 1;
            let keeps: bool = match self.field_type {
                Some(t) => t == field.field_type,
                None => true,
            };
            assert(keeps == keep(fields[self.idx - 1].0));
            if keeps {
                return Some(field);
            }
        }
        None
    }
}

impl Record for ParsedRecord {
    open spec fn inv(&self) -> bool {
        self.wf()
    }

    open spec fn spec_record_type(&self) -> Result<RecordType, MarcError> {
        Ok(self.meta().kind())
    }

    open spec fn spec_fields(&self) -> Result<Seq<(usize, Seq<u8>)>, MarcError> {
        Ok(self.fields())
    }

    open spec fn filters_by_list(&self) -> bool {
        false
    }

    open spec fn spec_marc21(&self) -> Result<Seq<u8>, MarcError> {
        Err(MarcError::NotImplemented)
    }

    fn record_type(&self) -> (r: Result<RecordType, MarcError>) {
        Ok(self.meta.record_type())
    }

    fn field_iter(&self, field_type: Option<usize>) -> (r: Result<Vec<RecordField<'_>>, MarcError>) {
        let mut it = ParsedRecordFieldIter::new(self, field_type);
        let ghost fields = self.fields();
        let ghost keep = keeps_tag(field_type);
        let mut out: Vec<RecordField<'_>> = Vec::new();
        proof {
            assert(fields.take(0) =~= Seq::empty());
            reveal(Seq::filter);
            assert(field_views(out@) =~= selected(fields.take(0), keep));
        }
        loop
            invariant_except_break
                it.record() == *self,
                self.wf(),
                self.fields() == fields,
                it.filter() == field_type,
                keep == keeps_tag(field_type),
                0 <= it.position() <= fields.len(),
                field_views(out@) == selected(fields.take(it.position()), keep),
            ensures
                field_views(out@) == selected(fields, keep),
            decreases fields.len() - it.position(),
        {
            proof {
                lemma_next_match(fields, keep, it.position());
            }
            let ghost j = next_match(fields, keep, it.position());
            match it.next() {
                Some(field) => {
                    proof {
                        lemma_selected_take(fields, keep, j);
                        assert(field_views(out@.push(field)) =~= field_views(out@).push(field@));
                    }
                    out.push(field);
                },
                None => {
                    proof {
                        assert(fields.take(j) =~= fields);
                    }
                    break ;
                },
            }
        }
        Ok(out)
    }

    /// A parsed record cannot be walked with a list of tags yet.
    fn field_iter_vec(&self, _field_types: &[usize]) -> (r: Result<Vec<RecordField<'_>>, MarcError>) {
        Err(MarcError::NotImplemented)
    }

    /// A parsed record has no encoder yet.
    fn to_marc21(&self, _writer: &mut Vec<u8>) -> (r: Result<(), MarcError>) {
        Err(MarcError::NotImplemented)
    }
}

} // verus!

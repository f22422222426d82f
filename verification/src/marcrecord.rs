//! Records read in place: the leader, the directory and the fields of a
//! record that lies in a buffer owned by somebody else.

use vstd::prelude::*;
use crate::error::MarcError;
use crate::ownedrecord::OwnedRecord;
use crate::record::{
    end_of_entry_position, field_views, first_index, keeps_listed, keeps_tag,
    lemma_first_index, lemma_next_match, lemma_selected_all, lemma_selected_take, next_match,
    selected, tag_listed,
    Record, RecordField, RecordType, FIELD_SEPARATOR,
};
use crate::util::{decimal_value, parse_usize3, parse_usize4, parse_usize5};

verus! {

/// The number of bytes of a leader.
pub const MARCHEADER_SIZE: usize = 24;

/// The number of bytes of a directory entry.
pub const DIRECTORY_ENTRY_SIZE: usize = 12;

/// The total length that a leader declares for its record.
pub open spec fn declared_length(leader: Seq<u8>) -> nat {
    decimal_value(leader.subrange(0, 5))
}

/// The kind of record that a leader names, if it is one that is known.
pub open spec fn leader_record_type(leader: Seq<u8>) -> Result<RecordType, MarcError> {
    if leader[6] == RecordType::Authority.code() {
        Ok(RecordType::Authority)
    } else {
        Err(MarcError::NotImplemented)
    }
}

/// The tag that entry `i` of a directory holds.
pub open spec fn entry_tag(dir: Seq<u8>, i: int) -> int {
    decimal_value(dir.subrange(12 * i, 12 * i + 3)) as int
}

/// The length that entry `i` of a directory declares for its field, the
/// field's delimiter included.
pub open spec fn entry_len(dir: Seq<u8>, i: int) -> int {
    decimal_value(dir.subrange(12 * i + 3, 12 * i + 7)) as int
}

/// The offset into the field data at which entry `i` lets its field start.
pub open spec fn entry_start(dir: Seq<u8>, i: int) -> int {
    decimal_value(dir.subrange(12 * i + 7, 12 * i + 12)) as int
}

/// The directory of a record body: the bytes before its first field separator.
pub open spec fn directory_of(data: Seq<u8>) -> Seq<u8> {
    data.subrange(0, first_index(data, FIELD_SEPARATOR) as int)
}

/// The field data of a record body: everything from the separator that ends
/// the directory on.
pub open spec fn payload_of(data: Seq<u8>) -> Seq<u8> {
    data.subrange(first_index(data, FIELD_SEPARATOR) as int, data.len() as int)
}

/// Whether the window of entry `i` is not empty and lies inside the field data.
pub open spec fn window_ok(dir: Seq<u8>, payload: Seq<u8>, i: int) -> bool {
    entry_len(dir, i) >= 1 && entry_start(dir, i) + entry_len(dir, i) <= payload.len()
}

/// Whether a directory is made of whole entries whose windows all lie inside
/// the field data.
pub open spec fn entries_ok(dir: Seq<u8>, payload: Seq<u8>) -> bool {
    &&& dir.len() % 12 == 0
    &&& forall|i: int| 0 <= i < dir.len() / 12 ==> window_ok(dir, payload, i)
}

/// Whether a record body has the layout of a record: a directory that ends,
/// made of whole entries, each with its window inside the field data.
pub open spec fn well_formed(data: Seq<u8>) -> bool {
    &&& first_index(data, FIELD_SEPARATOR) < data.len()
    &&& entries_ok(directory_of(data), payload_of(data))
}

/// The field that entry `i` describes: its tag, and the window
/// `[start + 1, start + len)` of the field data.
pub open spec fn field_at(dir: Seq<u8>, payload: Seq<u8>, i: int) -> (usize, Seq<u8>) {
    (
        entry_tag(dir, i) as usize,
        payload.subrange(entry_start(dir, i) + 1, entry_start(dir, i) + entry_len(dir, i)),
    )
}

/// The fields that a directory describes, in the order of its entries.
pub open spec fn fields_of(dir: Seq<u8>, payload: Seq<u8>) -> Seq<(usize, Seq<u8>)> {
    Seq::new(dir.len() / 12, |i: int| field_at(dir, payload, i))
}

/// The fields of a record body, in directory order.
pub open spec fn record_fields(data: Seq<u8>) -> Seq<(usize, Seq<u8>)> {
    fields_of(directory_of(data), payload_of(data))
}

/// The 24 bytes that start a record.
#[derive(Debug)]
pub struct MarcHeader<'s> {
    header: &'s [u8],
}

impl<'s> View for MarcHeader<'s> {
    type V = Seq<u8>;

    closed spec fn view(&self) -> Seq<u8> {
        self.header@
    }
}

impl<'s> MarcHeader<'s> {
    #[verifier::type_invariant]
    spec fn has_leader_size(self) -> bool {
        self.header@.len() == 24
    }

    /// Takes 24 bytes as a leader.
    pub fn new(data: &'s [u8]) -> (r: MarcHeader<'s>)
        requires
            data@.len() == MARCHEADER_SIZE,
        ensures
            r@ == data@,
    {
        MarcHeader { header: data }
    }

    /// The bytes of the leader.
    pub fn bytes(&self) -> (r: &'s [u8])
        ensures
            r@ == self@,
            r@.len() == MARCHEADER_SIZE,
    {
        proof {
            use_type_invariant(self);
        }
        self.header
    }

    /// The total length of the record, as the leader declares it.
    pub fn record_length(&self) -> (r: usize)
        ensures
            r == declared_length(self@),
    {
        proof {
            use_type_invariant(self);
        }
        parse_usize5(self.header)
    }

    /// The kind of record that the leader names.
    pub fn record_type(&self) -> (r: Result<RecordType, MarcError>)
        ensures
            r == leader_record_type(self@),
    {
        proof {
            use_type_invariant(self);
        }
        if self.header[6] == 0x7a {
            Ok(RecordType::Authority)
        } else {
            Err(MarcError::NotImplemented)
        }
    }
}

/// One entry of a directory: twelve bytes.
#[derive(Debug)]
pub struct MarcDirectoryEntryRef<'s> {
    entry: &'s [u8],
}

impl<'s> View for MarcDirectoryEntryRef<'s> {
    type V = Seq<u8>;

    closed spec fn view(&self) -> Seq<u8> {
        self.entry@
    }
}

impl<'s> MarcDirectoryEntryRef<'s> {
    #[verifier::type_invariant]
    spec fn has_entry_size(self) -> bool {
        self.entry@.len() == 12
    }

    /// The tag of the field.
    pub fn entry_type(&self) -> (r: usize)
        ensures
            r == entry_tag(self@, 0),
    {
        proof {
            use_type_invariant(self);
            assert(self.entry@.subrange(0, 3).subrange(0, 3) =~= self.entry@.subrange(0, 3));
        }
        parse_usize3(&self.entry[0..3])
    }

    /// The declared length of the field, its delimiter included.
    pub fn len(&self) -> (r: usize)
        ensures
            r == entry_len(self@, 0),
            r <= 229_977,
    {
        proof {
            use_type_invariant(self);
            assert(self.entry@.subrange(3, 7).subrange(0, 4) =~= self.entry@.subrange(3, 7));
        }
        parse_usize4(&self.entry[3..7])
    }

    /// The declared start of the field in the field data.
    pub fn start(&self) -> (r: usize)
        ensures
            r == entry_start(self@, 0),
            r <= 2_299_977,
    {
        proof {
            use_type_invariant(self);
            assert(self.entry@.subrange(7, 12).subrange(0, 5) =~= self.entry@.subrange(7, 12));
        }
        parse_usize5(&self.entry[7..12])
    }
}

/// The directory of a record.
pub struct MarcDirectory<'s> {
    directory: &'s [u8],
}

impl<'s> View for MarcDirectory<'s> {
    type V = Seq<u8>;

    closed spec fn view(&self) -> Seq<u8> {
        self.directory@
    }
}

impl<'s> MarcDirectory<'s> {
    /// Entry `i` of the directory.
    pub fn get_entry(&self, i: usize) -> (r: MarcDirectoryEntryRef<'s>)
        requires
            i < self@.len() / 12,
        ensures
            r@ == self@.subrange(12 * i, 12 * i + 12),
            entry_tag(r@, 0) == entry_tag(self@, i as int),
            entry_len(r@, 0) == entry_len(self@, i as int),
            entry_start(r@, 0) == entry_start(self@, i as int),
    {
        assert(self.directory.len() == self@.len());
        let entry: &'s [u8] = &self.directory[12 * i..12 * (i + 1)];
        proof {
            let d = self.directory@;
            let e = entry@;
            assert(e.subrange(0, 3) =~= d.subrange(12 * i, 12 * i + 3));
            assert(e.subrange(3, 7) =~= d.subrange(12 * i + 3, 12 * i + 7));
            assert(e.subrange(7, 12) =~= d.subrange(12 * i + 7, 12 * i + 12));
        }
        MarcDirectoryEntryRef { entry }
    }

    /// The number of whole entries.
    pub fn num_entries(&self) -> (r: usize)
        ensures
            r == self@.len() / 12,
    {
        self.byte_len() / 12
    }

    /// The number of bytes.
    pub fn byte_len(&self) -> (r: usize)
        ensures
            r == self@.len(),
    {
        self.directory.len()
    }
}

/// A record that lies in a buffer owned by somebody else: its leader and
/// the bytes that follow it.
#[derive(Debug)]
pub struct MarcRecord<'s> {
    header: MarcHeader<'s>,
    data: &'s [u8],
}

impl<'s> View for MarcRecord<'s> {
    type V = Seq<u8>;

    /// All bytes of the record: the leader, then the body.
    closed spec fn view(&self) -> Seq<u8> {
        self.header@ + self.data@
    }
}

/// The directory of a record together with its field data, checked: the
/// directory is made of whole entries, and every window lies in the field
/// data. Its view is the list of the fields.
pub struct MarcRecordEntries<'s> {
    directory: MarcDirectory<'s>,
    record_payload: &'s [u8],
}

impl<'s> View for MarcRecordEntries<'s> {
    type V = Seq<(usize, Seq<u8>)>;

    closed spec fn view(&self) -> Seq<(usize, Seq<u8>)> {
        fields_of(self.directory@, self.record_payload@)
    }
}

impl<'s> MarcRecordEntries<'s> {
    #[verifier::type_invariant]
    spec fn windows_in_payload(self) -> bool {
        entries_ok(self.directory@, self.record_payload@)
    }

    /// The number of fields.
    pub fn num_entries(&self) -> (r: usize)
        ensures
            r == self@.len(),
    {
        self.directory.num_entries()
    }

    /// The tag of field `i`.
    pub fn field_type(&self, i: usize) -> (r: usize)
        requires
            i < self@.len(),
        ensures
            r == self@[i as int].0,
    {
        self.directory.get_entry(i).entry_type()
    }

    /// Field `i`: its tag, and as content the window of its entry less the
    /// first byte, which is the delimiter before the field.
    pub fn field(&self, i: usize) -> (r: RecordField<'s>)
        requires
            i < self@.len(),
        ensures
            r@ == self@[i as int],
    {
        proof {
            use_type_invariant(self);
            assert(window_ok(self.directory@, self.record_payload@, i as int));
        }
        let entry_ref = self.directory.get_entry(i);
        let entry_type: usize = entry_ref.entry_type();
        // + 1 skips the delimiter
        let start: usize = entry_ref.start() + 1;
        let payload: &'s [u8] = self.record_payload;
        assert(payload.len() == payload@.len());
        RecordField { field_type: entry_type, data: &payload[start..start + entry_ref.len() - 1] }
    }
}

impl<'s> MarcRecord<'s> {
    #[verifier::type_invariant]
    spec fn length_fits(self) -> bool {
        self.data@.len() + MARCHEADER_SIZE <= usize::MAX
    }

    /// The leader of the record.
    pub closed spec fn leader(&self) -> Seq<u8> {
        self.header@
    }

    /// The bytes of the record after its leader.
    pub closed spec fn body(&self) -> Seq<u8> {
        self.data@
    }

    /// The view is the leader followed by the body.
    pub proof fn lemma_view(&self)
        ensures
            self@ == self.leader() + self.body(),
    {
    }

    /// Puts a leader and the bytes that follow it together.
    pub fn new(h: MarcHeader<'s>, data: &'s [u8]) -> (r: MarcRecord<'s>)
        requires
            data@.len() + MARCHEADER_SIZE <= usize::MAX,
        ensures
            r.leader() == h@,
            r.body() == data@,
    {
        MarcRecord { header: h, data }
    }

    /// The leader.
    pub fn header(&self) -> (r: &MarcHeader<'s>)
        ensures
            r@ == self.leader(),
    {
        &self.header
    }

    /// The bytes after the leader.
    pub fn data(&self) -> (r: &'s [u8])
        ensures
            r@ == self.body(),
    {
        self.data
    }

    /// The number of bytes of the record, the leader included.
    pub fn record_length(&self) -> (r: usize)
        ensures
            r == self.body().len() + MARCHEADER_SIZE,
    {
        proof {
            use_type_invariant(self);
        }
        self.data.len() + MARCHEADER_SIZE
    }

    /// The directory: the bytes of the body before its first field
    /// separator. A body without a field separator is malformed.
    pub fn directory(&self) -> (r: Result<MarcDirectory<'s>, MarcError>)
        ensures
            match r {
                Ok(d) => first_index(self.body(), FIELD_SEPARATOR) < self.body().len() && d@
                    == directory_of(self.body()),
                Err(e) => e == MarcError::Malformed && first_index(self.body(), FIELD_SEPARATOR)
                    == self.body().len(),
            },
    {
        let data: &'s [u8] = self.data;
        match end_of_entry_position(data) {
            Some(directory_end) => Ok(MarcDirectory { directory: &data[0..directory_end] }),
            None => Err(MarcError::Malformed),
        }
    }

    /// The directory and the field data, checked against each other.
    pub fn entries(&self) -> (r: Result<MarcRecordEntries<'s>, MarcError>)
        ensures
            match r {
                Ok(e) => well_formed(self.body()) && e@ == record_fields(self.body()),
                Err(e) => e == MarcError::Malformed && !well_formed(self.body()),
            },
    {
        let data: &'s [u8] = self.data;
        let data_len: usize = data.len();
        let d = match self.directory() {
            Ok(d) => d,
            Err(e) => {
                return Err(e);
            },
        };
        let d_len: usize = d.byte_len();
        proof {
            lemma_first_index(data@, FIELD_SEPARATOR);
        }
        let payload: &'s [u8] = &data[d_len..data_len];
        if d_len % DIRECTORY_ENTRY_SIZE != 0 {
            return Err(MarcError::Malformed);
        }
        let n: usize = d.num_entries();
        let mut i: usize = 0;
        while i < n
            invariant
                0 <= i <= n,
                n == d@.len() / 12,
                data@ == self.body(),
                d@ == directory_of(data@),
                payload@ == payload_of(data@),
                forall|k: int| 0 <= k < i ==> window_ok(d@, payload@, k),
            decreases n - i,
        {
            let entry = d.get_entry(i);
            let len: usize = entry.len();
            let start: usize = entry.start();
            if len < 1 || start + len > payload.len() {
                assert(!window_ok(d@, payload@, i as int));
                return Err(MarcError::Malformed);
            }
            i += 1;
        }
        Ok(MarcRecordEntries { directory: d, record_payload: payload })
    }
}

impl<'s> MarcRecord<'s> {
    /// A copy that owns its leader and its fields. The leader is copied as
    /// it is.
    pub fn to_owned(&self) -> (r: Result<OwnedRecord, MarcError>)
        ensures
            match r {
                Ok(o) => well_formed(self.body()) && o.wf() && o.header@ == self.leader()
                    && o.fields() == record_fields(self.body()),
                Err(e) => e == MarcError::Malformed && !well_formed(self.body()),
            },
    {
        let fields = match self.field_iter(None) {
            Ok(fields) => fields,
            Err(e) => {
                return Err(e);
            },
        };
        proof {
            lemma_selected_all(record_fields(self.body()));
        }
        let mut record = OwnedRecord::new();
        let bytes: &[u8] = self.header.bytes();
        let mut i: usize = 0;
        while i < 24
            invariant
                0 <= i <= 24,
                bytes@ == self.leader(),
                bytes@.len() == 24,
                record.wf(),
                record.fields() == Seq::<(usize, Seq<u8>)>::empty(),
                forall|k: int| 0 <= k < i ==> record.header@[k] == bytes@[k],
            decreases 24 - i,
        {
            record.header[i] = bytes[i];
            i += 1;
        }
        assert(record.header@ =~= self.leader());
        let mut i: usize = 0;
        proof {
            assert(record.fields() =~= field_views(fields@).take(0));
        }
        while i < fields.len()
            invariant
                0 <= i <= fields@.len(),
                record.wf(),
                record.header@ == self.leader(),
                record.fields() == field_views(fields@).take(i as int),
            decreases fields@.len() - i,
        {
            record.add_field(fields[i].to_owned());
            proof {
                assert(field_views(fields@).take(i + 1) =~= field_views(fields@).take(
                    i as int,
                ).push(fields@[i as int]@));
            }
            i += 1;
        }
        proof {
            assert(field_views(fields@).take(i as int) =~= field_views(fields@));
        }
        Ok(record)
    }
}

/// A walk over the fields of a record that keeps one tag, or all.
pub struct MarcRecordFieldIter<'s> {
    entries: MarcRecordEntries<'s>,
    idx: usize,
    field_type: Option<usize>,
}

impl<'s> MarcRecordFieldIter<'s> {
    /// The fields of the record that is walked.
    pub closed spec fn fields(&self) -> Seq<(usize, Seq<u8>)> {
        self.entries@
    }

    /// The index of the entry that the walk looks at next.
    pub closed spec fn position(&self) -> int {
        self.idx as int
    }

    /// The tag that the walk keeps; `None` where it keeps all.
    pub closed spec fn filter(&self) -> Option<usize> {
        self.field_type
    }

    /// Starts a walk at the first field of a well-formed record.
    pub fn new(r: &MarcRecord<'s>, field_type: Option<usize>) -> (it: Result<
        MarcRecordFieldIter<'s>,
        MarcError,
    >)
        ensures
            match it {
                Ok(it) => well_formed(r.body()) && it.fields() == record_fields(r.body())
                    && it.position() == 0 && it.filter() == field_type,
                Err(e) => e == MarcError::Malformed && !well_formed(r.body()),
            },
    {
        match r.entries() {
            Ok(entries) => Ok(MarcRecordFieldIter { entries, idx: 0, field_type }),
            Err(e) => Err(e),
        }
    }

    /// Hands out the next field that the filter keeps, and moves behind it;
    /// `None` once no such field is left.
    pub fn next(&mut self) -> (r: Option<RecordField<'s>>)
        ensures
            final(self).fields() == old(self).fields(),
            final(self).filter() == old(self).filter(),
            ({
                let j = next_match(
                    old(self).fields(),
                    keeps_tag(old(self).filter()),
                    old(self).position(),
                );
                if j < old(self).fields().len() {
                    r is Some && r->0@ == old(self).fields()[j] && final(self).position() == j + 1
                } else {
                    r is None && final(self).position() == j
                }
            }),
    {
        let ghost fields = self.entries@;
        let ghost keep = keeps_tag(self.field_type);
        let ghost goal = next_match(fields, keep, self.idx as int);
        let num_entries: usize = self.entries.num_entries();
        while self.idx < num_entries
            invariant
                self.entries@ == fields,
                old(self).entries@ == fields,
                keeps_tag(self.field_type) == keep,
                self.field_type == old(self).field_type,
                num_entries == fields.len(),
                next_match(fields, keep, self.idx as int) == goal,
                goal == next_match(fields, keep, old(self).idx as int),
            decreases num_entries - self.idx,
        {
            let i: usize = self.idx;
            let entry_type: usize = self.entries.field_type(i);
            self.idx += 1;
            let keeps: bool = match self.field_type {
                Some(t) => t == entry_type,
                None => true,
            };
            assert(keeps == keep(fields[i as int].0));
            if keeps {
                return Some(self.entries.field(i));
            }
        }
        None
    }
}

/// A walk over the fields of a record that keeps the tags of a list.
pub struct MarcRecordFieldIterVec<'s> {
    entries: MarcRecordEntries<'s>,
    idx: usize,
    field_types: Vec<usize>,
}

impl<'s> MarcRecordFieldIterVec<'s> {
    /// The fields of the record that is walked.
    pub closed spec fn fields(&self) -> Seq<(usize, Seq<u8>)> {
        self.entries@
    }

    /// The index of the entry that the walk looks at next.
    pub closed spec fn position(&self) -> int {
        self.idx as int
    }

    /// The list of tags that the walk keeps.
    pub closed spec fn tags(&self) -> Seq<usize> {
        self.field_types@
    }

    /// Starts a walk at the first field of a well-formed record. The list of
    /// tags has to be ascending for every tag of it to be found.
    pub fn new(r: &MarcRecord<'s>, field_types: &[usize]) -> (it: Result<
        MarcRecordFieldIterVec<'s>,
        MarcError,
    >)
        ensures
            match it {
                Ok(it) => well_formed(r.body()) && it.fields() == record_fields(r.body())
                    && it.position() == 0 && it.tags() == field_types@,
                Err(e) => e == MarcError::Malformed && !well_formed(r.body()),
            },
    {
        match r.entries() {
            Ok(entries) => Ok(
                MarcRecordFieldIterVec {
                    entries,
                    idx: 0,
                    field_types: vstd::slice::slice_to_vec(field_types),
                },
            ),
            Err(e) => Err(e),
        }
    }

    /// Hands out the next field whose tag the search finds in the list, and
    /// moves behind it; `None` once no such field is left.
    pub fn next(&mut self) -> (r: Option<RecordField<'s>>)
        ensures
            final(self).fields() == old(self).fields(),
            final(self).tags() == old(self).tags(),
            ({
                let j = next_match(
                    old(self).fields(),
                    keeps_listed(old(self).tags()),
                    old(self).position(),
                );
                if j < old(self).fields().len() {
                    r is Some && r->0@ == old(self).fields()[j] && final(self).position() == j + 1
                } else {
                    r is None && final(self).position() == j
                }
            }),
    {
        let ghost fields = self.entries@;
        let ghost keep = keeps_listed(self.field_types@);
        let ghost goal = next_match(fields, keep, self.idx as int);
        let num_entries: usize = self.entries.num_entries();
        while self.idx < num_entries
            invariant
                self.entries@ == fields,
                old(self).entries@ == fields,
                self.field_types@ == old(self).field_types@,
                keeps_listed(self.field_types@) == keep,
                num_entries == fields.len(),
                next_match(fields, keep, self.idx as int) == goal,
                goal == next_match(fields, keep, old(self).idx as int),
            decreases num_entries - self.idx,
        {
            let i: usize = self.idx;
            let entry_type: usize = self.entries.field_type(i);
            self.idx += 1;
            let keeps: bool = tag_listed(self.field_types.as_slice(), entry_type);
            assert(keeps == keep(fields[i as int].0));
            if keeps {
                return Some(self.entries.field(i));
            }
        }
        None
    }
}

impl<'s> Record for MarcRecord<'s> {
    open spec fn inv(&self) -> bool {
        true
    }

    open spec fn spec_record_type(&self) -> Result<RecordType, MarcError> {
        leader_record_type(self.leader())
    }

    open spec fn spec_fields(&self) -> Result<Seq<(usize, Seq<u8>)>, MarcError> {
        if well_formed(self.body()) {
            Ok(record_fields(self.body()))
        } else {
            Err(MarcError::Malformed)
        }
    }

    open spec fn filters_by_list(&self) -> bool {
        true
    }

    open spec fn spec_marc21(&self) -> Result<Seq<u8>, MarcError> {
        Ok(self@)
    }

    fn record_type(&self) -> (r: Result<RecordType, MarcError>) {
        self.header().record_type()
    }

    fn field_iter(&self, field_type: Option<usize>) -> (r: Result<Vec<RecordField<'_>>, MarcError>) {
        let mut it = match MarcRecordFieldIter::new(self, field_type) {
            Ok(it) => it,
            Err(e) => {
                return Err(e);
            },
        };
        let ghost fields = it.fields();
        let ghost keep = keeps_tag(field_type);
        let mut out: Vec<RecordField<'_>> = Vec::new();
        proof {
            assert(fields.take(0) =~= Seq::empty());
            reveal(Seq::filter);
            assert(field_views(out@) =~= selected(fields.take(0), keep));
        }
        loop
            invariant_except_break
                it.fields() == fields,
                it.filter() == field_type,
                keep == keeps_tag(field_type),
                0 <= it.position() <= fields.len(),
                field_views(out@) == selected(fields.take(it.position()), keep),
            ensures
                field_views(out@) == selected(fields, keep),
            decreases fields.len() - it.position(),
        {
            proof {
                lemma_next_match(fields, keep, it.position());
            }
            let ghost j = next_match(fields, keep, it.position());
            match it.next() {
                Some(field) => {
                    proof {
                        lemma_selected_take(fields, keep, j);
                        assert(field_views(out@.push(field)) =~= field_views(out@).push(field@));
                    }
                    out.push(field);
                },
                None => {
                    proof {
                        assert(fields.take(j) =~= fields);
                    }
                    break ;
                },
            }
        }
        Ok(out)
    }

    fn field_iter_vec(&self, field_types: &[usize]) -> (r: Result<Vec<RecordField<'_>>, MarcError>) {
        let mut it = match MarcRecordFieldIterVec::new(self, field_types) {
            Ok(it) => it,
            Err(e) => {
                return Err(e);
            },
        };
        let ghost fields = it.fields();
        let ghost keep = keeps_listed(field_types@);
        let mut out: Vec<RecordField<'_>> = Vec::new();
        proof {
            assert(fields.take(0) =~= Seq::empty());
            reveal(Seq::filter);
            assert(field_views(out@) =~= selected(fields.take(0), keep));
        }
        loop
            invariant_except_break
                it.fields() == fields,
                it.tags() == field_types@,
                keep == keeps_listed(field_types@),
                0 <= it.position() <= fields.len(),
                field_views(out@) == selected(fields.take(it.position()), keep),
            ensures
                field_views(out@) == selected(fields, keep),
            decreases fields.len() - it.position(),
        {
            proof {
                lemma_next_match(fields, keep, it.position());
            }
            let ghost j = next_match(fields, keep, it.position());
            match it.next() {
                Some(field) => {
                    proof {
                        lemma_selected_take(fields, keep, j);
                        assert(field_views(out@.push(field)) =~= field_views(out@).push(field@));
                    }
                    out.push(field);
                },
                None => {
                    proof {
                        assert(fields.take(j) =~= fields);
                    }
                    break ;
                },
            }
        }
        Ok(out)
    }

    fn to_marc21(&self, writer: &mut Vec<u8>) -> (r: Result<(), MarcError>) {
        writer.extend_from_slice(self.header.bytes());
        writer.extend_from_slice(self.data);
        assert(writer@ =~= old(writer)@ + self@);
        Ok(())
    }
}

/// The records that one block held.
#[derive(Debug)]
pub struct MarcRecordBatch<'s> {
    pub records: Vec<MarcRecord<'s>>,
}

} // verus!

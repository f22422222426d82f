//! Records that own their fields, and their encoding.

use vstd::prelude::*;
use crate::error::MarcError;
use crate::record::{
    field_views, keeps_listed, keeps_tag, lemma_next_match, lemma_selected_take, lemma_single_tag_list, next_match, selected, tag_listed,
    OwnedRecordField, Record, RecordField, RecordType, FIELD_SEPARATOR, RECORD_SEPARATOR,
};
use crate::util::{decimal_digits, pow10, write_usize};

verus! {

/// The greatest length that five digits can declare.
pub const MAX_RECORD_LENGTH: usize = 99_999;

/// The greatest tag that three digits can hold.
pub const MAX_TAG: usize = 999;

/// The greatest field length that four digits can hold.
pub const MAX_FIELD_LENGTH: usize = 9_999;

/// The bytes that the fields take in the field data: each content and one
/// delimiter.
pub open spec fn fields_len(fields: Seq<(usize, Seq<u8>)>) -> nat
    decreases fields.len(),
{
    if fields.len() == 0 {
        0
    } else {
        fields_len(fields.drop_last()) + fields.last().1.len() + 1
    }
}

/// The length of the encoding: the leader, twelve bytes of directory and
/// the content with its delimiter for each field, the delimiter that ends
/// the directory and the one that ends the record.
pub open spec fn encoded_len(fields: Seq<(usize, Seq<u8>)>) -> nat {
    24 + 12 * fields.len() + fields_len(fields) + 2
}

/// A directory entry: the tag in three digits, the length in four and the
/// start in five.
pub open spec fn entry_bytes(tag: nat, len: nat, start: nat) -> Seq<u8> {
    decimal_digits(tag, 3) + decimal_digits(len, 4) + decimal_digits(start, 5)
}

/// The directory of the fields: one entry each, with the content's length
/// plus one as length, and as start the lengths of the fields before it.
pub open spec fn directory_bytes(fields: Seq<(usize, Seq<u8>)>) -> Seq<u8>
    decreases fields.len(),
{
    if fields.len() == 0 {
        Seq::empty()
    } else {
        directory_bytes(fields.drop_last()) + entry_bytes(
            fields.last().0 as nat,
            fields.last().1.len() + 1,
            fields_len(fields.drop_last()),
        )
    }
}

/// The field data of the fields, without the delimiter that ends the
/// directory: each content followed by a field separator.
pub open spec fn content_bytes(fields: Seq<(usize, Seq<u8>)>) -> Seq<u8>
    decreases fields.len(),
{
    if fields.len() == 0 {
        Seq::empty()
    } else {
        content_bytes(fields.drop_last()) + fields.last().1 + seq![FIELD_SEPARATOR]
    }
}

/// Whether every number of the encoding fits its field: the total length
/// five digits, each tag three and each field length four.
pub open spec fn encodable(fields: Seq<(usize, Seq<u8>)>) -> bool {
    &&& encoded_len(fields) <= MAX_RECORD_LENGTH
    &&& forall|i: int|
        0 <= i < fields.len() ==> (#[trigger] fields[i]).0 <= MAX_TAG && fields[i].1.len() + 1
            <= MAX_FIELD_LENGTH
}

/// The encoding of a record: the total length in five digits, the rest of
/// the leader as it is, the directory, a field separator, the field data
/// and a record separator.
pub open spec fn encoding(leader: Seq<u8>, fields: Seq<(usize, Seq<u8>)>) -> Seq<u8> {
    decimal_digits(encoded_len(fields), 5) + leader.subrange(5, 24) + directory_bytes(fields)
        + seq![FIELD_SEPARATOR] + content_bytes(fields) + seq![RECORD_SEPARATOR]
}

/// The first fields of a record take no more room than all of them.
pub proof fn lemma_fields_len_take(fields: Seq<(usize, Seq<u8>)>, i: int)
    requires
        0 <= i <= fields.len(),
    ensures
        fields_len(fields.take(i)) + 12 * i <= fields_len(fields) + 12 * fields.len(),
        i < fields.len() ==> fields_len(fields.take(i + 1)) == fields_len(fields.take(i))
            + fields[i].1.len() + 1,
        i < fields.len() ==> fields_len(fields.take(i)) + fields[i].1.len() + 1 + 12 * (i + 1)
            <= fields_len(fields) + 12 * fields.len(),
    decreases fields.len() - i,
{
    if i < fields.len() {
        assert(fields.take(i + 1).drop_last() =~= fields.take(i));
        lemma_fields_len_take(fields, i + 1);
    } else {
        assert(fields.take(i) =~= fields);
    }
}

/// A record that owns its leader and its fields.
pub struct OwnedRecord {
    pub header: [u8; 24],
    pub field_types: Vec<usize>,
    pub field_data: Vec<Vec<u8>>,
}

impl OwnedRecord {
    /// Whether there is one content for each tag.
    pub open spec fn wf(&self) -> bool {
        self.field_types@.len() == self.field_data@.len()
    }

    /// The fields: the tags paired with the contents.
    pub open spec fn fields(&self) -> Seq<(usize, Seq<u8>)> {
        Seq::new(self.field_types@.len(), |i: int| (self.field_types@[i], self.field_data@[i]@))
    }

    /// A record without fields whose leader is 24 zero bytes.
    pub fn new() -> (r: OwnedRecord)
        ensures
            r.wf(),
            r.fields() == Seq::<(usize, Seq<u8>)>::empty(),
            r.header@ == Seq::new(24, |i: int| 0u8),
    {
        let r = OwnedRecord {
            header: [0, 0, 0, 0, 0, 0, 0, 0, 0, 0, 0, 0, 0, 0, 0, 0, 0, 0, 0, 0, 0, 0, 0, 0],
            field_types: Vec::new(),
            field_data: Vec::new(),
        };
        assert(r.fields() =~= Seq::<(usize, Seq<u8>)>::empty());
        assert(r.header@ =~= Seq::new(24, |i: int| 0u8));
        r
    }

    /// Appends a field. The length that the leader declares stays as it is.
    pub fn add_field(&mut self, field: OwnedRecordField)
        requires
            old(self).wf(),
        ensures
            final(self).wf(),
            final(self).fields() == old(self).fields().push(field@),
            final(self).header == old(self).header,
    {
        self.field_types.push(field.field_type);
        self.field_data.push(field.data);
        assert(self.fields() =~= old(self).fields().push(field@));
    }

    /// The length of the encoding, where five digits can hold it.
    fn checked_len(&self) -> (r: Option<usize>)
        requires
            self.wf(),
        ensures
            match r {
                Some(n) => n == encoded_len(self.fields()) && n <= MAX_RECORD_LENGTH,
                None => encoded_len(self.fields()) > MAX_RECORD_LENGTH,
            },
    {
        let n: usize = self.field_data.len();
        let mut total: usize = 26;
        let mut i: usize = 0;
        proof {
            assert(self.fields().take(0) =~= Seq::empty());
        }
        while i < n
            invariant
                self.wf(),
                n == self.fields().len(),
                0 <= i <= n,
                total == 26 + 12 * i + fields_len(self.fields().take(i as int)),
                total <= MAX_RECORD_LENGTH,
            decreases n - i,
        {
            let len: usize = self.field_data[i].len();
            proof {
                lemma_fields_len_take(self.fields(), i as int);
            }
            if len > MAX_RECORD_LENGTH || total + 13 + len > MAX_RECORD_LENGTH {
                return None;
            }
            total = total + 13 + len;
            i += 1;
        }
        proof {
            assert(self.fields().take(i as int) =~= self.fields());
        }
        Some(total)
    }

    /// Writes the length of the encoding into the first five bytes of the
    /// leader; where five digits cannot hold it, the leader stays as it is.
    fn update_len(&mut self) -> (r: Result<(), MarcError>)
        requires
            old(self).wf(),
        ensures
            final(self).wf(),
            final(self).fields() == old(self).fields(),
            match r {
                Ok(_) => encoded_len(old(self).fields()) <= MAX_RECORD_LENGTH && final(self).header@
                    == decimal_digits(encoded_len(old(self).fields()), 5) + old(self).header@.subrange(5, 24),
                Err(e) => e == MarcError::FieldOverflow && encoded_len(old(self).fields())
                    > MAX_RECORD_LENGTH && final(self).header == old(self).header,
            },
    {
        let l: usize = match self.checked_len() {
            Some(l) => l,
            None => {
                return Err(MarcError::FieldOverflow);
            },
        };
        let mut digits: Vec<u8> = Vec::new();
        proof {
            reveal_with_fuel(pow10, 6);
        }
        write_usize(l, 5, &mut digits);
        proof {
            crate::util::lemma_decimal_digits_shape(l as nat, 5);
        }
        let mut i: usize = 0;
        while i < 5
            invariant
                0 <= i <= 5,
                digits@ == decimal_digits(l as nat, 5),
                digits@.len() == 5,
                self.field_types == old(self).field_types,
                self.field_data == old(self).field_data,
                forall|k: int| 0 <= k < i ==> self.header@[k] == digits@[k],
                forall|k: int| i <= k < 24 ==> self.header@[k] == old(self).header@[k],
            decreases 5 - i,
        {
            self.header[i] = digits[i];
            i += 1;
        }
        proof {
            assert(self.header@ =~= decimal_digits(l as nat, 5) + old(self).header@.subrange(
                5,
                24,
            ));
        }
        Ok(())
    }

    /// Appends a copy of each field of the list, then writes the length of
    /// the encoding into the leader. Where five digits cannot hold that
    /// length, the fields are added and the leader stays as it is.
    pub fn add_field_from_iter(&mut self, field_iter: &[RecordField<'_>]) -> (r: Result<
        (),
        MarcError,
    >)
        requires
            old(self).wf(),
        ensures
            final(self).wf(),
            final(self).fields() == old(self).fields() + field_views(field_iter@),
            match r {
                Ok(_) => encoded_len(final(self).fields()) <= MAX_RECORD_LENGTH && final(self).header@ == decimal_digits(encoded_len(final(self).fields()), 5) + old(self).header@.subrange(5, 24),
                Err(e) => e == MarcError::FieldOverflow && encoded_len(final(self).fields())
                    > MAX_RECORD_LENGTH && final(self).header == old(self).header,
            },
    {
        let mut i: usize = 0;
        proof {
            assert(self.fields() =~= old(self).fields() + field_views(field_iter@).take(0));
        }
        while i < field_iter.len()
            invariant
                0 <= i <= field_iter@.len(),
                self.wf(),
                self.header == old(self).header,
                self.fields() == old(self).fields() + field_views(field_iter@).take(i as int),
            decreases field_iter@.len() - i,
        {
            let ghost before = self.fields();
            self.add_field(field_iter[i].to_owned());
            proof {
                assert(field_views(field_iter@).take(i + 1) =~= field_views(field_iter@).take(
                    i as int,
                ).push(field_iter@[i as int]@));
                assert(self.fields() =~= old(self).fields() + field_views(field_iter@).take(
                    i + 1,
                ));
            }
            i += 1;
        }
        proof {
            assert(field_views(field_iter@).take(i as int) =~= field_views(field_iter@));
        }
        self.update_len()
    }
}

/// A walk over the fields of an owned record that keeps the tags of a list,
/// or all tags.
struct OwnedRecordFieldIter<'s> {
    i: usize,
    field_types: Vec<usize>,
    unfiltered: bool,
    record: &'s OwnedRecord,
}

impl<'s> OwnedRecordFieldIter<'s> {
    /// The filter of the walk.
    spec fn keep(&self) -> spec_fn(usize) -> bool {
        if self.unfiltered {
            keeps_tag(None)
        } else {
            keeps_listed(self.field_types@)
        }
    }

    /// Hands out the next field that the filter keeps, and moves behind it;
    /// `None` once no such field is left.
    fn next(&mut self) -> (r: Option<RecordField<'s>>)
        requires
            old(self).record.wf(),
        ensures
            final(self).record == old(self).record,
            final(self).field_types == old(self).field_types,
            final(self).unfiltered == old(self).unfiltered,
            ({
                let fields = old(self).record.fields();
                let j = next_match(fields, old(self).keep(), old(self).i as int);
                if j < fields.len() {
                    r is Some && r->0@ == fields[j] && final(self).i == j + 1
                } else {
                    r is None && final(self).i == j
                }
            }),
    {
        let ghost fields = self.record.fields();
        let ghost keep = self.keep();
        let ghost goal = next_match(fields, keep, self.i as int);
        while self.i < self.record.field_types.len()
            invariant
                self.record == old(self).record,
                self.record.wf(),
                self.record.fields() == fields,
                self.field_types == old(self).field_types,
                self.unfiltered == old(self).unfiltered,
                self.keep() == keep,
                next_match(fields, keep, self.i as int) == goal,
                goal == next_match(fields, keep, old(self).i as int),
            decreases fields.len() - self.i,
        {
            let idx: usize = self.i;
            self.i += 1;
            let field_type: usize = self.record.field_types[idx];
            let keeps: bool = self.unfiltered || tag_listed(
                self.field_types.as_slice(),
                field_type,
            );
            assert(keeps == keep(fields[idx as int].0));
            if keeps {
                let record: &'s OwnedRecord = self.record;
                return Some(RecordField { field_type, data: record.field_data[idx].as_slice() });
            }
        }
        None
    }
}

impl OwnedRecord {
    /// Whether every tag fits three digits and every field length four.
    fn fields_fit(&self) -> (r: bool)
        requires
            self.wf(),
        ensures
            r == forall|i: int|
                0 <= i < self.fields().len() ==> (#[trigger] self.fields()[i]).0 <= MAX_TAG
                    && self.fields()[i].1.len() + 1 <= MAX_FIELD_LENGTH,
    {
        let n: usize = self.field_types.len();
        let mut i: usize = 0;
        while i < n
            invariant
                self.wf(),
                n == self.fields().len(),
                0 <= i <= n,
                forall|k: int|
                    0 <= k < i ==> (#[trigger] self.fields()[k]).0 <= MAX_TAG
                        && self.fields()[k].1.len() + 1 <= MAX_FIELD_LENGTH,
            decreases n - i,
        {
            if self.field_types[i] > MAX_TAG || self.field_data[i].len() >= MAX_FIELD_LENGTH {
                assert(!((#[trigger] self.fields()[i as int]).0 <= MAX_TAG && self.fields()[i as int].1.len()
                    + 1 <= MAX_FIELD_LENGTH));
                return false;
            }
            i += 1;
        }
        true
    }

    /// The fields that the filter keeps, in their order.
    fn collect(&self, field_types: Vec<usize>, unfiltered: bool) -> (r: Vec<RecordField<'_>>)
        requires
            self.wf(),
        ensures
            field_views(r@) == selected(
                self.fields(),
                if unfiltered {
                    keeps_tag(None)
                } else {
                    keeps_listed(field_types@)
                },
            ),
    {
        let mut it = OwnedRecordFieldIter { i: 0, field_types, unfiltered, record: self };
        let ghost fields = self.fields();
        let ghost keep = it.keep();
        let mut out: Vec<RecordField<'_>> = Vec::new();
        proof {
            assert(fields.take(0) =~= Seq::empty());
            reveal(Seq::filter);
            assert(field_views(out@) =~= selected(fields.take(0), keep));
        }
        loop
            invariant_except_break
                it.record == self,
                self.wf(),
                self.fields() == fields,
                it.keep() == keep,
                0 <= it.i <= fields.len(),
                field_views(out@) == selected(fields.take(it.i as int), keep),
            ensures
                field_views(out@) == selected(fields, keep),
            decreases fields.len() - it.i,
        {
            proof {
                lemma_next_match(fields, keep, it.i as int);
            }
            let ghost j = next_match(fields, keep, it.i as int);
            match it.next() {
                Some(field) => {
                    proof {
                        lemma_selected_take(fields, keep, j);
                        assert(field_views(out@.push(field)) =~= field_views(out@).push(field@));
                    }
                    out.push(field);
                },
                None => {
                    proof {
                        assert(fields.take(j) =~= fields);
                    }
                    break ;
                },
            }
        }
        out
    }
}

impl Record for OwnedRecord {
    open spec fn inv(&self) -> bool {
        self.wf()
    }

    open spec fn spec_record_type(&self) -> Result<RecordType, MarcError> {
        Err(MarcError::NotImplemented)
    }

    open spec fn spec_fields(&self) -> Result<Seq<(usize, Seq<u8>)>, MarcError> {
        Ok(self.fields())
    }

    open spec fn filters_by_list(&self) -> bool {
        true
    }

    open spec fn spec_marc21(&self) -> Result<Seq<u8>, MarcError> {
        if encodable(self.fields()) {
            Ok(encoding(self.header@, self.fields()))
        } else {
            Err(MarcError::FieldOverflow)
        }
    }

    /// An owned record does not decode its leader: its kind cannot be told.
    fn record_type(&self) -> (r: Result<RecordType, MarcError>) {
        Err(MarcError::NotImplemented)
    }

    fn field_iter_vec(&self, field_types: &[usize]) -> (r: Result<Vec<RecordField<'_>>, MarcError>) {
        Ok(self.collect(vstd::slice::slice_to_vec(field_types), false))
    }

    fn field_iter(&self, field_types: Option<usize>) -> (r: Result<Vec<RecordField<'_>>, MarcError>) {
        if let Some(x) = field_types {
            let list: Vec<usize> = vec![x];
            proof {
                lemma_single_tag_list(self.fields(), x);
                assert(list@ =~= seq![x]);
            }
            Ok(self.collect(list, false))
        } else {
            Ok(self.collect(Vec::new(), true))
        }
    }

    fn to_marc21(&self, writer: &mut Vec<u8>) -> (r: Result<(), MarcError>) {
        let total: usize = match self.checked_len() {
            Some(total) => total,
            None => {
                return Err(MarcError::FieldOverflow);
            },
        };
        if !self.fields_fit() {
            return Err(MarcError::FieldOverflow);
        }
        let ghost fields = self.fields();
        let ghost start_bytes = writer@;
        proof {
            reveal_with_fuel(pow10, 6);
        }
        write_usize(total, 5, writer);
        let mut k: usize = 5;
        while k < 24
            invariant
                5 <= k <= 24,
                writer@ == start_bytes + decimal_digits(total as nat, 5) + self.header@.subrange(
                    5,
                    k as int,
                ),
            decreases 24 - k,
        {
            writer.push(self.header[k]);
            proof {
                assert(self.header@.subrange(5, k + 1) =~= self.header@.subrange(5, k as int).push(
                    self.header@[k as int],
                ));
            }
            k += 1;
        }
        let ghost prefix = writer@;
        let n: usize = self.field_types.len();
        let mut start: usize = 0;
        let mut i: usize = 0;
        proof {
            assert(fields.take(0) =~= Seq::empty());
            assert(writer@ =~= prefix + directory_bytes(fields.take(0)));
        }
        while i < n
            invariant
                self.wf(),
                self.fields() == fields,
                encodable(fields),
                n == fields.len(),
                0 <= i <= n,
                start == fields_len(fields.take(i as int)),
                writer@ == prefix + directory_bytes(fields.take(i as int)),
            decreases n - i,
        {
            let field_type: usize = self.field_types[i];
            proof {
                reveal_with_fuel(pow10, 6);
                lemma_fields_len_take(fields, i as int);
                assert(fields[i as int] == (field_type, self.field_data@[i as int]@));
                assert(fields.take(i + 1).drop_last() =~= fields.take(i as int));
                assert(fields.take(i + 1).last() == fields[i as int]);
            }
            // + 1 for the field separator
            let field_len: usize = self.field_data[i].len() + 1;
            write_usize(field_type, 3, writer);
            write_usize(field_len, 4, writer);
            write_usize(start, 5, writer);
            proof {
                assert(writer@ =~= prefix + directory_bytes(fields.take(i + 1)));
            }
            start += field_len;
            i += 1;
        }
        proof {
            assert(fields.take(i as int) =~= fields);
        }
        writer.push(FIELD_SEPARATOR);
        let ghost head = writer@;
        let mut i: usize = 0;
        proof {
            assert(fields.take(0) =~= Seq::empty());
            assert(writer@ =~= head + content_bytes(fields.take(0)));
        }
        while i < n
            invariant
                self.wf(),
                self.fields() == fields,
                n == fields.len(),
                0 <= i <= n,
                writer@ == head + content_bytes(fields.take(i as int)),
            decreases n - i,
        {
            proof {
                assert(fields.take(i + 1).drop_last() =~= fields.take(i as int));
                assert(fields.take(i + 1).last() == fields[i as int]);
            }
            writer.extend_from_slice(self.field_data[i].as_slice());
            writer.push(FIELD_SEPARATOR);
            proof {
                assert(writer@ =~= head + content_bytes(fields.take(i + 1)));
            }
            i += 1;
        }
        proof {
            assert(fields.take(i as int) =~= fields);
        }
        writer.push(RECORD_SEPARATOR);
        proof {
            assert(writer@ =~= old(writer)@ + encoding(self.header@, fields));
        }
        Ok(())
    }
}

} // verus!

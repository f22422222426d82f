//! What holds of the codec as a whole: of the filters of a walk, of
//! encoding and decoding taken together, and of the readers on a stream of
//! records.

use vstd::prelude::*;
use crate::error::MarcError;
use crate::marcrecord::{
    declared_length, directory_of, entries_ok, entry_len, entry_start, entry_tag, field_at,
    fields_of, payload_of, record_fields, well_formed, window_ok, MarcRecord,
};
use crate::ownedrecord::OwnedRecord;
use crate::reader::{
    advance_spec, at_rest, consumed, current_record, fill_spec, scan_end, scan_records,
    seek_body_spec, AdvanceStep, ReaderState,
};
use crate::record::Record;
use crate::ownedrecord::{
    content_bytes, directory_bytes, encodable, encoded_len, encoding, entry_bytes, fields_len,
    lemma_fields_len_take,
};
use crate::record::{
    first_index, is_ascending, keeps_listed, keeps_tag, lemma_first_index,
    lemma_first_index_unique, lemma_listed_is_contained, lemma_selected_all, selected,
    FIELD_SEPARATOR, RECORD_SEPARATOR,
};
use crate::util::{
    decimal_digits, decimal_value, is_decimal, lemma_decimal_digits_shape,
    lemma_decimal_value_bound,
    lemma_decimal_digits_value, lemma_decimal_sum_digits, lemma_decimal_value_digits, pow10,
};

verus! {

/// Two predicates that agree on every field keep the same fields.
pub proof fn lemma_filter_agrees(
    fields: Seq<(usize, Seq<u8>)>,
    left: spec_fn((usize, Seq<u8>)) -> bool,
    right: spec_fn((usize, Seq<u8>)) -> bool,
)
    requires
        forall|f: (usize, Seq<u8>)| #[trigger] left(f) == right(f),
    ensures
        fields.filter(left) == fields.filter(right),
    decreases fields.len(),
{
    if fields.len() == 0 {
        reveal(Seq::filter);
        assert(fields.filter(left) =~= fields.filter(right));
    } else {
        let head = fields.drop_last();
        lemma_filter_agrees(head, left, right);
        assert(fields =~= head.push(fields.last()));
        head.lemma_filter_push(fields.last(), left);
        head.lemma_filter_push(fields.last(), right);
    }
}

/// A walk without a filter hands out every field of a record in directory
/// order: as many fields as the directory has entries, field `i` being the
/// one that entry `i` describes.
pub proof fn lemma_unfiltered_walk(data: Seq<u8>)
    ensures
        selected(record_fields(data), keeps_tag(None)) == record_fields(data),
        record_fields(data).len() == directory_of(data).len() / 12,
        forall|i: int|
            0 <= i < directory_of(data).len() / 12 ==> #[trigger] record_fields(data)[i]
                == field_at(directory_of(data), payload_of(data), i),
{
    lemma_selected_all(record_fields(data));
}

/// A walk with one tag hands out the fields of the unfiltered walk that
/// have this tag, in their order.
pub proof fn lemma_single_tag_walk(fields: Seq<(usize, Seq<u8>)>, tag: usize)
    ensures
        selected(fields, keeps_tag(Some(tag))) == fields.filter(
            |f: (usize, Seq<u8>)| f.0 == tag,
        ),
{
    let keep = keeps_tag(Some(tag));
    let left = |f: (usize, Seq<u8>)| keep(f.0);
    let right = |f: (usize, Seq<u8>)| f.0 == tag;
    assert forall|f: (usize, Seq<u8>)| #[trigger] left(f) == right(f) by {}
    lemma_filter_agrees(fields, left, right);
}

/// A walk with an ascending list of tags hands out the fields that a walk
/// with one of the tags of the list hands out, in their order. Of a list
/// that is not ascending this does not hold: the search can miss a tag.
pub proof fn lemma_listed_walk(fields: Seq<(usize, Seq<u8>)>, tags: Seq<usize>)
    requires
        is_ascending(tags),
    ensures
        selected(fields, keeps_listed(tags)) == fields.filter(
            |f: (usize, Seq<u8>)|
                exists|k: int| 0 <= k < tags.len() && keeps_tag(Some(#[trigger] tags[k]))(f.0),
        ),
{
    let keep = keeps_listed(tags);
    let left = |f: (usize, Seq<u8>)| keep(f.0);
    let right = |f: (usize, Seq<u8>)|
        exists|k: int| 0 <= k < tags.len() && keeps_tag(Some(#[trigger] tags[k]))(f.0);
    assert forall|f: (usize, Seq<u8>)| #[trigger] left(f) == right(f) by {
        lemma_listed_is_contained(tags, f.0);
        if tags.contains(f.0) {
            let k = choose|k: int| 0 <= k < tags.len() && tags[k] == f.0;
            assert(keeps_tag(Some(tags[k]))(f.0));
        }
        if right(f) {
            let k = choose|k: int| 0 <= k < tags.len() && keeps_tag(Some(#[trigger] tags[k]))(f.0);
            assert(tags[k] == f.0);
        }
    }
    lemma_filter_agrees(fields, left, right);
}

/// Whatever the order of the list, a walk with a list of tags hands out
/// only fields whose tag is in the list.
pub proof fn lemma_listed_walk_sound(fields: Seq<(usize, Seq<u8>)>, tags: Seq<usize>, i: int)
    requires
        0 <= i < selected(fields, keeps_listed(tags)).len(),
    ensures
        tags.contains(selected(fields, keeps_listed(tags))[i].0),
        fields.contains(selected(fields, keeps_listed(tags))[i]),
{
    let keep = keeps_listed(tags);
    let p = |f: (usize, Seq<u8>)| keep(f.0);
    fields.lemma_filter_pred(p, i);
    fields.lemma_filter_contains_rev(p, fields.filter(p)[i]);
    lemma_listed_is_contained(tags, fields.filter(p)[i].0);
}

/// Where the content of field `i` starts in the field data of an encoding:
/// behind the contents and delimiters of the fields before it.
pub open spec fn start_of(fields: Seq<(usize, Seq<u8>)>, i: int) -> int {
    fields_len(fields.take(i)) as int
}

/// A directory entry is twelve digits.
pub proof fn lemma_entry_bytes(tag: nat, len: nat, start: nat)
    ensures
        entry_bytes(tag, len, start).len() == 12,
        is_decimal(entry_bytes(tag, len, start)),
        entry_bytes(tag, len, start).subrange(0, 3) == decimal_digits(tag, 3),
        entry_bytes(tag, len, start).subrange(3, 7) == decimal_digits(len, 4),
        entry_bytes(tag, len, start).subrange(7, 12) == decimal_digits(start, 5),
{
    lemma_decimal_digits_shape(tag, 3);
    lemma_decimal_digits_shape(len, 4);
    lemma_decimal_digits_shape(start, 5);
    let e = entry_bytes(tag, len, start);
    assert(e.subrange(0, 3) =~= decimal_digits(tag, 3));
    assert(e.subrange(3, 7) =~= decimal_digits(len, 4));
    assert(e.subrange(7, 12) =~= decimal_digits(start, 5));
}

/// Whether the directory of an encoding holds at the place of entry `i`
/// the entry of field `i`.
pub open spec fn entry_in_place(fields: Seq<(usize, Seq<u8>)>, i: int) -> bool {
    directory_bytes(fields).subrange(12 * i, 12 * i + 12) == entry_bytes(
        fields[i].0 as nat,
        fields[i].1.len() + 1,
        start_of(fields, i) as nat,
    )
}

/// The directory of an encoding is made of digits, twelve for each field,
/// and holds every entry in its place.
pub proof fn lemma_directory_bytes(fields: Seq<(usize, Seq<u8>)>)
    ensures
        directory_bytes(fields).len() == 12 * fields.len(),
        is_decimal(directory_bytes(fields)),
        forall|i: int| 0 <= i < fields.len() ==> #[trigger] entry_in_place(fields, i),
    decreases fields.len(),
{
    if fields.len() > 0 {
        let head = fields.drop_last();
        let n = head.len() as int;
        let last = entry_bytes(fields.last().0 as nat, fields.last().1.len() + 1, fields_len(head));
        lemma_directory_bytes(head);
        lemma_entry_bytes(fields.last().0 as nat, fields.last().1.len() + 1, fields_len(head));
        let d = directory_bytes(fields);
        assert(d == directory_bytes(head) + last);
        assert forall|i: int| 0 <= i < fields.len() implies #[trigger] entry_in_place(
            fields,
            i,
        ) by {
            if i < n {
                assert(entry_in_place(head, i));
                assert(head.take(i) =~= fields.take(i));
                assert(d.subrange(12 * i, 12 * i + 12) =~= directory_bytes(head).subrange(
                    12 * i,
                    12 * i + 12,
                ));
                assert(head[i] == fields[i]);
            } else {
                assert(fields.take(i) =~= head);
                assert(d.subrange(12 * i, 12 * i + 12) =~= last);
            }
        }
    }
}

/// Whether the field data of an encoding holds the content of field `i` at
/// the start of field `i`, and a field separator behind it.
pub open spec fn content_in_place(fields: Seq<(usize, Seq<u8>)>, i: int) -> bool {
    &&& start_of(fields, i) + fields[i].1.len() < fields_len(fields)
    &&& content_bytes(fields).subrange(
        start_of(fields, i),
        start_of(fields, i) + fields[i].1.len(),
    ) == fields[i].1
    &&& content_bytes(fields)[start_of(fields, i) + fields[i].1.len()] == FIELD_SEPARATOR
}

/// The field data of an encoding is as long as the fields with their
/// delimiters, and holds every content in its place.
pub proof fn lemma_content_bytes(fields: Seq<(usize, Seq<u8>)>)
    ensures
        content_bytes(fields).len() == fields_len(fields),
        forall|i: int| 0 <= i < fields.len() ==> #[trigger] content_in_place(fields, i),
    decreases fields.len(),
{
    if fields.len() > 0 {
        let head = fields.drop_last();
        let n = head.len() as int;
        lemma_content_bytes(head);
        let c = content_bytes(fields);
        assert(c == content_bytes(head) + fields.last().1 + seq![FIELD_SEPARATOR]);
        assert forall|i: int| 0 <= i < fields.len() implies #[trigger] content_in_place(
            fields,
            i,
        ) by {
            if i < n {
                assert(content_in_place(head, i));
                assert(head.take(i) =~= fields.take(i));
                assert(head[i] == fields[i]);
                let s = start_of(head, i);
                assert(c.subrange(s, s + fields[i].1.len()) =~= content_bytes(head).subrange(
                    s,
                    s + head[i].1.len(),
                ));
                assert(c[s + fields[i].1.len()] == content_bytes(head)[s + head[i].1.len()]);
            } else {
                assert(fields.take(i) =~= head);
                let s = fields_len(head) as int;
                assert(c.subrange(s, s + fields[i].1.len()) =~= fields[i].1);
            }
        }
    }
}

/// An entry that was written from numbers that fit their fields reads as
/// these numbers.
pub proof fn lemma_entry_decodes(dir: Seq<u8>, i: int, tag: nat, len: nat, start: nat)
    requires
        0 <= i,
        12 * i + 12 <= dir.len(),
        dir.subrange(12 * i, 12 * i + 12) == entry_bytes(tag, len, start),
        tag < 1000,
        len < 10000,
        start < 100000,
    ensures
        entry_tag(dir, i) == tag,
        entry_len(dir, i) == len,
        entry_start(dir, i) == start,
{
    reveal_with_fuel(pow10, 6);
    lemma_entry_bytes(tag, len, start);
    lemma_decimal_digits_value(tag, 3);
    lemma_decimal_digits_value(len, 4);
    lemma_decimal_digits_value(start, 5);
    let e = dir.subrange(12 * i, 12 * i + 12);
    assert(dir.subrange(12 * i, 12 * i + 3) =~= e.subrange(0, 3));
    assert(dir.subrange(12 * i + 3, 12 * i + 7) =~= e.subrange(3, 7));
    assert(dir.subrange(12 * i + 7, 12 * i + 12) =~= e.subrange(7, 12));
}

/// The field data of an encoding: a field separator, the contents with
/// their delimiters, and a record separator.
pub open spec fn payload_bytes(fields: Seq<(usize, Seq<u8>)>) -> Seq<u8> {
    seq![FIELD_SEPARATOR] + content_bytes(fields) + seq![RECORD_SEPARATOR]
}

/// How an encoding is laid out: five digits, the rest of the leader, and a
/// body whose directory is the directory written and whose field data is
/// the field data written.
pub proof fn lemma_encoding_layout(leader: Seq<u8>, fields: Seq<(usize, Seq<u8>)>)
    requires
        leader.len() == 24,
    ensures
        ({
            let bytes = encoding(leader, fields);
            let body = bytes.subrange(24, bytes.len() as int);
            &&& bytes.len() == encoded_len(fields)
            &&& bytes.subrange(0, 24).subrange(0, 5) == decimal_digits(encoded_len(fields), 5)
            &&& bytes.subrange(5, 24) == leader.subrange(5, 24)
            &&& first_index(body, FIELD_SEPARATOR) == 12 * fields.len()
            &&& first_index(body, FIELD_SEPARATOR) < body.len()
            &&& directory_bytes(fields).len() == 12 * fields.len()
            &&& directory_of(body) == directory_bytes(fields)
            &&& payload_of(body) == payload_bytes(fields)
        }),
{
    let n = fields.len() as int;
    let bytes = encoding(leader, fields);
    let total = encoded_len(fields);
    let d = directory_bytes(fields);
    let c = content_bytes(fields);
    lemma_decimal_digits_shape(total, 5);
    lemma_directory_bytes(fields);
    lemma_content_bytes(fields);
    assert(bytes.len() == total);
    let body = bytes.subrange(24, bytes.len() as int);
    assert(body =~= d + payload_bytes(fields));
    assert(bytes.subrange(0, 24).subrange(0, 5) =~= decimal_digits(total, 5));
    assert(bytes.subrange(5, 24) =~= leader.subrange(5, 24));
    assert forall|j: int| 0 <= j < 12 * n implies body[j] != FIELD_SEPARATOR by {
        assert(body[j] == d[j]);
    }
    assert(body[12 * n] == FIELD_SEPARATOR);
    lemma_first_index_unique(body, FIELD_SEPARATOR, 12 * n);
    assert(directory_of(body) =~= d);
    assert(payload_of(body) =~= payload_bytes(fields));
}

/// Entry `i` of an encoding reads as field `i` was written: with the
/// field's tag, the length of its content plus one, and the lengths of the
/// fields before it as start; and its window holds the field's content.
pub proof fn lemma_encoded_field(fields: Seq<(usize, Seq<u8>)>, i: int)
    requires
        encodable(fields),
        0 <= i < fields.len(),
    ensures
        entry_start(directory_bytes(fields), i) == start_of(fields, i),
        entry_len(directory_bytes(fields), i) == fields[i].1.len() + 1,
        entry_tag(directory_bytes(fields), i) == fields[i].0,
        window_ok(directory_bytes(fields), payload_bytes(fields), i),
        field_at(directory_bytes(fields), payload_bytes(fields), i) == fields[i],
{
    let dir = directory_bytes(fields);
    let payload = payload_bytes(fields);
    let c = content_bytes(fields);
    lemma_directory_bytes(fields);
    lemma_content_bytes(fields);
    lemma_fields_len_take(fields, i);
    assert(content_in_place(fields, i));
    assert(entry_in_place(fields, i));
    let s = start_of(fields, i);
    let len = fields[i].1.len() as int;
    lemma_entry_decodes(dir, i, fields[i].0 as nat, fields[i].1.len() + 1, s as nat);
    assert(payload.subrange(s + 1, s + len + 1) =~= c.subrange(s, s + len));
}

/// The directory and the field data of an encoding, read together, give
/// the fields that were encoded.
pub proof fn lemma_encoded_fields(fields: Seq<(usize, Seq<u8>)>)
    requires
        encodable(fields),
    ensures
        directory_bytes(fields).len() == 12 * fields.len(),
        entries_ok(directory_bytes(fields), payload_bytes(fields)),
        fields_of(directory_bytes(fields), payload_bytes(fields)) == fields,
{
    let dir = directory_bytes(fields);
    let payload = payload_bytes(fields);
    lemma_directory_bytes(fields);
    assert forall|i: int| 0 <= i < dir.len() / 12 implies window_ok(dir, payload, i) by {
        lemma_encoded_field(fields, i);
    }
    assert forall|i: int| 0 <= i < fields.len() implies fields_of(dir, payload)[i]
        == fields[i] by {
        lemma_encoded_field(fields, i);
    }
    assert(fields_of(dir, payload) =~= fields);
}

/// The leader of an encoding declares the length of the encoding.
pub proof fn lemma_encoded_length(leader: Seq<u8>, fields: Seq<(usize, Seq<u8>)>)
    requires
        leader.len() == 24,
        encoded_len(fields) <= 99_999,
    ensures
        declared_length(encoding(leader, fields).subrange(0, 24)) == encoding(
            leader,
            fields,
        ).len(),
{
    reveal_with_fuel(pow10, 6);
    lemma_encoding_layout(leader, fields);
    lemma_decimal_digits_value(encoded_len(fields), 5);
}

/// Decoding undoes encoding. The encoding of fields that can be encoded is
/// a well-formed record of the length that its leader declares; its
/// directory has one entry for each field, with the field's tag, with the
/// length of the content plus one, and as start the sum of the lengths of
/// the entries before it; and its fields are the fields that were encoded.
pub proof fn lemma_encoding_decodes(leader: Seq<u8>, fields: Seq<(usize, Seq<u8>)>)
    requires
        leader.len() == 24,
        encodable(fields),
    ensures
        ({
            let bytes = encoding(leader, fields);
            let body = bytes.subrange(24, bytes.len() as int);
            let dir = directory_of(body);
            &&& bytes.len() == encoded_len(fields)
            &&& declared_length(bytes.subrange(0, 24)) == bytes.len()
            &&& bytes.subrange(5, 24) == leader.subrange(5, 24)
            &&& dir == directory_bytes(fields)
            &&& dir.len() == 12 * fields.len()
            &&& well_formed(body)
            &&& record_fields(body) == fields
            &&& forall|i: int|
                0 <= i < fields.len() ==> {
                    &&& #[trigger] entry_start(dir, i) == start_of(fields, i)
                    &&& entry_len(dir, i) == fields[i].1.len() + 1
                    &&& entry_tag(dir, i) == fields[i].0
                }
        }),
{
    lemma_encoding_layout(leader, fields);
    lemma_encoded_length(leader, fields);
    lemma_encoded_fields(fields);
    let dir = directory_bytes(fields);
    assert forall|i: int| 0 <= i < fields.len() implies {
        &&& #[trigger] entry_start(dir, i) == start_of(fields, i)
        &&& entry_len(dir, i) == fields[i].1.len() + 1
        &&& entry_tag(dir, i) == fields[i].0
    } by {
        lemma_encoded_field(fields, i);
    }
}

/// The sum of the lengths that the first `i` entries of a directory declare.
pub open spec fn lengths_before(dir: Seq<u8>, i: int) -> int
    decreases i,
{
    if i <= 0 {
        0
    } else {
        lengths_before(dir, i - 1) + entry_len(dir, i - 1)
    }
}

/// Whether entry `i` declares a field that starts where the fields before
/// it end, holds at least its delimiter, and is followed by a field
/// separator.
pub open spec fn entry_in_line(dir: Seq<u8>, payload: Seq<u8>, i: int) -> bool {
    &&& entry_len(dir, i) >= 1
    &&& entry_start(dir, i) == lengths_before(dir, i)
    &&& entry_start(dir, i) + entry_len(dir, i) < payload.len()
    &&& payload[entry_start(dir, i) + entry_len(dir, i)] == FIELD_SEPARATOR
}

/// Whether a directory of digits and a field data fit each other: the
/// entries are whole, each field follows the one before it, and the field
/// data ends one byte behind the last field.
pub open spec fn lined_up(dir: Seq<u8>, payload: Seq<u8>) -> bool {
    &&& dir.len() % 12 == 0
    &&& is_decimal(dir)
    &&& forall|i: int| 0 <= i < dir.len() / 12 ==> #[trigger] entry_in_line(dir, payload, i)
    &&& payload.len() == lengths_before(dir, (dir.len() / 12) as int) + 2
}

/// Whether bytes are a record as it is written: a leader whose first five
/// bytes are digits that spell the length of the whole, a directory of
/// digits that ends with a field separator, fields that follow each other
/// without a gap, each ended by a field separator, and a record separator
/// at the end.
pub open spec fn is_record(bytes: Seq<u8>) -> bool {
    let body = bytes.subrange(24, bytes.len() as int);
    &&& bytes.len() >= 24
    &&& is_decimal(bytes.subrange(0, 5))
    &&& decimal_value(bytes.subrange(0, 5)) == bytes.len()
    &&& first_index(body, FIELD_SEPARATOR) < body.len()
    &&& lined_up(directory_of(body), payload_of(body))
    &&& payload_of(body).last() == RECORD_SEPARATOR
}

/// An entry of digits is what writing its three numbers gives, and the
/// numbers fit their fields.
pub proof fn lemma_entry_encodes(dir: Seq<u8>, i: int)
    requires
        is_decimal(dir),
        0 <= i,
        12 * i + 12 <= dir.len(),
    ensures
        entry_tag(dir, i) < 1000,
        entry_len(dir, i) < 10000,
        entry_start(dir, i) < 100000,
        entry_bytes(entry_tag(dir, i) as nat, entry_len(dir, i) as nat, entry_start(dir, i) as nat)
            == dir.subrange(12 * i, 12 * i + 12),
{
    reveal_with_fuel(pow10, 6);
    let t = dir.subrange(12 * i, 12 * i + 3);
    let l = dir.subrange(12 * i + 3, 12 * i + 7);
    let s = dir.subrange(12 * i + 7, 12 * i + 12);
    assert(is_decimal(t)) by {
        assert forall|k: int| 0 <= k < t.len() implies 48 <= #[trigger] t[k] <= 57 by {
            assert(t[k] == dir[12 * i + k]);
        }
    }
    assert(is_decimal(l)) by {
        assert forall|k: int| 0 <= k < l.len() implies 48 <= #[trigger] l[k] <= 57 by {
            assert(l[k] == dir[12 * i + 3 + k]);
        }
    }
    assert(is_decimal(s)) by {
        assert forall|k: int| 0 <= k < s.len() implies 48 <= #[trigger] s[k] <= 57 by {
            assert(s[k] == dir[12 * i + 7 + k]);
        }
    }
    lemma_decimal_sum_digits(t);
    lemma_decimal_sum_digits(l);
    lemma_decimal_sum_digits(s);
    lemma_decimal_value_digits(t);
    lemma_decimal_value_digits(l);
    lemma_decimal_value_digits(s);
    assert(t + l + s =~= dir.subrange(12 * i, 12 * i + 12));
}

/// In a directory whose entries are in line the lengths add up, and the
/// fields before an entry end before the field data does.
pub proof fn lemma_lengths_before(dir: Seq<u8>, payload: Seq<u8>, i: int)
    requires
        lined_up(dir, payload),
        0 <= i <= dir.len() / 12,
    ensures
        0 <= lengths_before(dir, i) <= payload.len() - 2,
        i < dir.len() / 12 ==> lengths_before(dir, i) + entry_len(dir, i) <= payload.len() - 2,
    decreases dir.len() / 12 - i,
{
    let n = (dir.len() / 12) as int;
    if i < n {
        assert(entry_in_line(dir, payload, i));
        lemma_lengths_before(dir, payload, i + 1);
        lemma_lengths_nonnegative(dir, payload, i);
    } else {
        lemma_lengths_nonnegative(dir, payload, i);
    }
}

/// The lengths of entries that are in line add up to at least zero.
pub proof fn lemma_lengths_nonnegative(dir: Seq<u8>, payload: Seq<u8>, i: int)
    requires
        lined_up(dir, payload),
        0 <= i <= dir.len() / 12,
    ensures
        0 <= lengths_before(dir, i),
    decreases i,
{
    if i > 0 {
        lemma_lengths_nonnegative(dir, payload, i - 1);
        assert(entry_in_line(dir, payload, i - 1));
    }
}

/// Writing the first `i` fields of a directory and a field data that fit
/// each other gives the first `i` entries of the directory back, and the
/// field data behind its first byte as far as these fields go.
pub proof fn lemma_fields_encode(dir: Seq<u8>, payload: Seq<u8>, i: int)
    requires
        lined_up(dir, payload),
        0 <= i <= dir.len() / 12,
    ensures
        fields_len(fields_of(dir, payload).take(i)) == lengths_before(dir, i),
        directory_bytes(fields_of(dir, payload).take(i)) == dir.subrange(0, 12 * i),
        content_bytes(fields_of(dir, payload).take(i)) == payload.subrange(
            1,
            1 + lengths_before(dir, i),
        ),
    decreases i,
{
    let fields = fields_of(dir, payload);
    lemma_lengths_before(dir, payload, i);
    if i == 0 {
        assert(fields.take(0) =~= Seq::empty());
        assert(directory_bytes(fields.take(0)) =~= dir.subrange(0, 0));
        assert(content_bytes(fields.take(0)) =~= payload.subrange(1, 1));
    } else {
        let k = i - 1;
        lemma_fields_encode(dir, payload, k);
        lemma_lengths_before(dir, payload, k);
        lemma_entry_encodes(dir, k);
        assert(entry_in_line(dir, payload, k));
        let head = fields.take(k);
        let s = entry_start(dir, k);
        let len = entry_len(dir, k);
        assert(fields.take(i).drop_last() =~= head);
        assert(fields.take(i).last() == fields[k]);
        assert(fields[k] == field_at(dir, payload, k));
        assert(fields[k].1.len() == len - 1);
        assert(fields[k].0 as nat == entry_tag(dir, k) as nat);
        assert(directory_bytes(fields.take(i)) =~= dir.subrange(0, 12 * k) + dir.subrange(
            12 * k,
            12 * k + 12,
        ));
        assert(directory_bytes(fields.take(i)) =~= dir.subrange(0, 12 * i));
        assert(content_bytes(fields.take(i)) =~= payload.subrange(1, 1 + s) + payload.subrange(
            s + 1,
            s + len,
        ) + seq![FIELD_SEPARATOR]);
        assert(content_bytes(fields.take(i)) =~= payload.subrange(1, 1 + s + len));
    }
}

/// The body of a record as it is written is well formed, and its fields
/// can be encoded.
pub proof fn lemma_record_fields_encodable(dir: Seq<u8>, payload: Seq<u8>)
    requires
        lined_up(dir, payload),
    ensures
        entries_ok(dir, payload),
        encodable(fields_of(dir, payload)) <==> encoded_len(fields_of(dir, payload)) <= 99_999,
        encoded_len(fields_of(dir, payload)) == 24 + dir.len() + payload.len(),
{
    let n = (dir.len() / 12) as int;
    let fields = fields_of(dir, payload);
    lemma_fields_encode(dir, payload, n);
    assert(fields.take(n) =~= fields);
    assert forall|i: int| 0 <= i < n implies window_ok(dir, payload, i) by {
        assert(entry_in_line(dir, payload, i));
    }
    assert forall|i: int| 0 <= i < n implies (#[trigger] fields[i]).0 <= 999 && fields[i].1.len()
        + 1 <= 9_999 by {
        assert(entry_in_line(dir, payload, i));
        lemma_entry_encodes(dir, i);
    }
}

/// Written again, the fields of a directory and a field data that fit each
/// other give the directory and, between a field separator and a record
/// separator, the field data.
pub proof fn lemma_body_encodes(dir: Seq<u8>, payload: Seq<u8>)
    requires
        lined_up(dir, payload),
        payload[0] == FIELD_SEPARATOR,
        payload.last() == RECORD_SEPARATOR,
    ensures
        directory_bytes(fields_of(dir, payload)) + payload_bytes(fields_of(dir, payload)) == dir
            + payload,
{
    let n = (dir.len() / 12) as int;
    let fields = fields_of(dir, payload);
    lemma_fields_encode(dir, payload, n);
    assert(fields.take(n) =~= fields);
    assert(dir.subrange(0, 12 * n) =~= dir);
    assert(payload =~= seq![FIELD_SEPARATOR] + payload.subrange(1, payload.len() - 1)
        + seq![RECORD_SEPARATOR]);
}

/// An encoding whose length digits and whose body are those of given
/// bytes is these bytes, where it is written under their leader.
pub proof fn lemma_encoding_assembles(bytes: Seq<u8>, fields: Seq<(usize, Seq<u8>)>)
    requires
        bytes.len() >= 24,
        decimal_digits(encoded_len(fields), 5) == bytes.subrange(0, 5),
        directory_bytes(fields) + payload_bytes(fields) == bytes.subrange(24, bytes.len() as int),
    ensures
        encoding(bytes.subrange(0, 24), fields) == bytes,
{
    let rest = directory_bytes(fields) + payload_bytes(fields);
    assert(encoding(bytes.subrange(0, 24), fields) =~= bytes.subrange(0, 5) + bytes.subrange(
        0,
        24,
    ).subrange(5, 24) + rest);
    assert(bytes.subrange(0, 24).subrange(5, 24) =~= bytes.subrange(5, 24));
    assert(bytes =~= bytes.subrange(0, 5) + bytes.subrange(5, 24) + bytes.subrange(
        24,
        bytes.len() as int,
    ));
}

/// Five digits that spell a number are what writing the number gives, and
/// the number is below a hundred thousand.
pub proof fn lemma_length_digits(digits: Seq<u8>)
    requires
        digits.len() == 5,
        is_decimal(digits),
    ensures
        decimal_value(digits) <= 99_999,
        decimal_digits(decimal_value(digits), 5) == digits,
{
    reveal_with_fuel(pow10, 6);
    lemma_decimal_sum_digits(digits);
    lemma_decimal_value_digits(digits);
}

/// Encoding undoes decoding. The fields of a record as it is written can be
/// encoded, and their encoding under the leader of the record is the
/// record, byte for byte.
pub proof fn lemma_round_trip(bytes: Seq<u8>)
    requires
        is_record(bytes),
    ensures
        well_formed(bytes.subrange(24, bytes.len() as int)),
        encodable(record_fields(bytes.subrange(24, bytes.len() as int))),
        encoding(bytes.subrange(0, 24), record_fields(bytes.subrange(24, bytes.len() as int)))
            == bytes,
{
    let body = bytes.subrange(24, bytes.len() as int);
    let dir = directory_of(body);
    let payload = payload_of(body);
    let fields = record_fields(body);
    lemma_first_index(body, FIELD_SEPARATOR);
    lemma_record_fields_encodable(dir, payload);
    lemma_body_encodes(dir, payload);
    lemma_length_digits(bytes.subrange(0, 5));
    assert(body =~= dir + payload);
    lemma_encoding_assembles(bytes, fields);
}

/// A record as it is written comes back byte for byte, both from the
/// record read in place and from the copy that owns its fields.
pub proof fn lemma_record_round_trip(r: MarcRecord, o: OwnedRecord)
    requires
        r.leader().len() == 24,
        is_record(r@),
        o.header@ == r.leader(),
        o.fields() == record_fields(r.body()),
    ensures
        r.spec_marc21() == Ok::<Seq<u8>, MarcError>(r@),
        o.spec_marc21() == Ok::<Seq<u8>, MarcError>(r@),
{
    r.lemma_view();
    let bytes = r@;
    assert(bytes.subrange(0, 24) =~= r.leader());
    assert(bytes.subrange(24, bytes.len() as int) =~= r.body());
    lemma_round_trip(bytes);
}

/// The bytes that a source hands out when it is asked for `n` of what it
/// has left: as many as asked for, or all that is left.
pub open spec fn answer(rest: Seq<u8>, n: nat) -> Seq<u8> {
    if n <= rest.len() {
        rest.subrange(0, n as int)
    } else {
        rest
    }
}

/// What a source has left after it was asked for `n` bytes.
pub open spec fn remainder(rest: Seq<u8>, n: nat) -> Seq<u8> {
    if n <= rest.len() {
        rest.subrange(n as int, rest.len() as int)
    } else {
        Seq::empty()
    }
}

/// The number of bytes that a step asks for.
pub open spec fn asked(step: Result<AdvanceStep, MarcError>) -> nat {
    match step {
        Ok(AdvanceStep::Read(n)) => n as nat,
        _ => 0,
    }
}

/// What a step says of the advance where it is the last: whether a record
/// has come, or the error.
pub open spec fn outcome(step: Result<AdvanceStep, MarcError>) -> Result<bool, MarcError> {
    match step {
        Ok(AdvanceStep::Done(available)) => Ok(available),
        Ok(AdvanceStep::Read(_)) => Ok(false),
        Err(e) => Err(e),
    }
}

/// One whole advance of a reader against a source that has `rest` left and
/// hands out what it is asked for as long as it has bytes: the reader and
/// the rest afterwards, and whether a record has come. An advance reads at
/// most twice.
pub open spec fn advance_on(s: ReaderState, rest: Seq<u8>) -> (
    ReaderState,
    Seq<u8>,
    Result<bool, MarcError>,
) {
    let (s1, r1) = advance_spec(s);
    if r1 is Ok && r1->Ok_0 is Read {
        let (s2, r2) = fill_spec(s1, answer(rest, asked(r1)));
        let rest2 = remainder(rest, asked(r1));
        if r2 is Ok && r2->Ok_0 is Read {
            let (s3, r3) = fill_spec(s2, answer(rest2, asked(r2)));
            (s3, remainder(rest2, asked(r2)), outcome(r3))
        } else {
            (s2, rest2, outcome(r2))
        }
    } else {
        (s1, rest, outcome(r1))
    }
}

/// The reader and the source after `k` advances from a new reader on a
/// stream, and the outcome of the last of them.
pub open spec fn after_advances(stream: Seq<u8>, k: nat) -> (
    ReaderState,
    Seq<u8>,
    Result<bool, MarcError>,
)
    decreases k,
{
    if k == 0 {
        (at_rest(Seq::empty(), false), stream, Ok(true))
    } else {
        let before = after_advances(stream, (k - 1) as nat);
        advance_on(before.0, before.1)
    }
}

/// Whether bytes are as long as their leader declares.
pub open spec fn is_whole_record(record: Seq<u8>) -> bool {
    record.len() >= 24 && declared_length(record.subrange(0, 24)) == record.len()
}

/// The records of a list one after the other.
pub open spec fn concat(records: Seq<Seq<u8>>) -> Seq<u8>
    decreases records.len(),
{
    if records.len() == 0 {
        Seq::empty()
    } else {
        records.first() + concat(records.drop_first())
    }
}

/// With a whole record at the head of the source, an advance of a reader
/// at rest whose window holds nothing but a whole record, or nothing, ends
/// with that record as the window, and has taken it from the source.
pub proof fn lemma_advance_takes_record(window: Seq<u8>, record: Seq<u8>, tail: Seq<u8>)
    requires
        window.len() == 0 || is_whole_record(window),
        is_whole_record(record),
    ensures
        advance_on(at_rest(window, false), record + tail) == (
            at_rest(record, false),
            tail,
            Ok::<bool, MarcError>(true),
        ),
{
    let s = at_rest(window, false);
    let rest = record + tail;
    let l = record.len();
    lemma_decimal_value_bound(record.subrange(0, 24).subrange(0, 5));
    assert(consumed(window) =~= Seq::<u8>::empty()) by {
        if window.len() > 0 {
            assert(current_record(window) == Some(window.subrange(0, window.len() as int)));
        }
    }
    let (s1, r1) = advance_spec(s);
    assert(r1 == Ok::<AdvanceStep, MarcError>(AdvanceStep::Read(24)));
    let head = answer(rest, 24);
    assert(head =~= record.subrange(0, 24));
    let rest2 = remainder(rest, 24);
    assert(rest2 =~= record.subrange(24, l as int) + tail);
    let w2 = s1.window + head;
    assert(w2 =~= record.subrange(0, 24));
    assert(w2.subrange(0, 24) =~= record.subrange(0, 24));
    let (s2, r2) = fill_spec(s1, head);
    assert((s2, r2) == seek_body_spec(w2, false));
    if l == 24 {
        assert(record =~= w2);
        assert(rest2 =~= tail);
    } else {
        assert(r2 == Ok::<AdvanceStep, MarcError>(AdvanceStep::Read((l - 24) as usize)));
        let more = answer(rest2, (l - 24) as nat);
        assert(more =~= record.subrange(24, l as int));
        assert(remainder(rest2, (l - 24) as nat) =~= tail);
        assert(s2.window + more =~= record);
    }
}

/// With less than a leader left in the source, an advance of a reader at
/// rest whose window holds nothing but a whole record, or nothing, fails:
/// the reader is at the end of the stream, with what was left as window.
pub proof fn lemma_advance_at_end(window: Seq<u8>, eof: bool, garbage: Seq<u8>)
    requires
        window.len() == 0 || is_whole_record(window),
        garbage.len() < 24,
    ensures
        advance_on(at_rest(window, eof), garbage) == (
            at_rest(garbage, true),
            Seq::<u8>::empty(),
            Ok::<bool, MarcError>(false),
        ),
{
    let s = at_rest(window, eof);
    assert(consumed(window) =~= Seq::<u8>::empty()) by {
        if window.len() > 0 {
            assert(current_record(window) == Some(window.subrange(0, window.len() as int)));
        }
    }
    let (s1, r1) = advance_spec(s);
    assert(r1 == Ok::<AdvanceStep, MarcError>(AdvanceStep::Read(24)));
    assert(answer(garbage, 24) == garbage);
    assert(s1.window + garbage =~= garbage);
}

/// At the end of the stream a further advance fails again and changes
/// nothing.
pub proof fn lemma_advance_after_end(garbage: Seq<u8>)
    requires
        garbage.len() < 24,
    ensures
        advance_on(at_rest(garbage, true), Seq::<u8>::empty()) == (
            at_rest(garbage, true),
            Seq::<u8>::empty(),
            Ok::<bool, MarcError>(false),
        ),
{
    let s = at_rest(garbage, true);
    assert(current_record(garbage) is None);
    let (s1, r1) = advance_spec(s);
    assert(r1 == Ok::<AdvanceStep, MarcError>(AdvanceStep::Read((24 - garbage.len()) as usize)));
    assert(answer(Seq::<u8>::empty(), (24 - garbage.len()) as nat) =~= Seq::<u8>::empty());
    assert(s1.window + Seq::<u8>::empty() =~= garbage);
}

/// Where the reader stands after `k` advances on whole records followed by
/// less than a leader: after each of the first advances, at the record of
/// that number with the later records still in the source; after all
/// further ones, at the end of the stream.
pub proof fn lemma_reader_progress(records: Seq<Seq<u8>>, garbage: Seq<u8>, k: nat)
    requires
        forall|i: int| 0 <= i < records.len() ==> is_whole_record(#[trigger] records[i]),
        garbage.len() < 24,
        k >= 1,
    ensures
        k <= records.len() ==> after_advances(concat(records) + garbage, k) == (
            at_rest(records[k - 1], false),
            concat(records.skip(k as int)) + garbage,
            Ok::<bool, MarcError>(true),
        ),
        k > records.len() ==> after_advances(concat(records) + garbage, k) == (
            at_rest(garbage, true),
            Seq::<u8>::empty(),
            Ok::<bool, MarcError>(false),
        ),
    decreases k,
{
    let stream = concat(records) + garbage;
    let n = records.len();
    if k == 1 {
        assert(after_advances(stream, 0) == (
            at_rest(Seq::<u8>::empty(), false),
            stream,
            Ok::<bool, MarcError>(true),
        ));
        if n == 0 {
            assert(stream =~= garbage);
            lemma_advance_at_end(Seq::<u8>::empty(), false, garbage);
        } else {
            assert(records.skip(0) =~= records);
            assert(records.drop_first() =~= records.skip(1));
            assert(stream =~= records[0] + (concat(records.skip(1)) + garbage));
            lemma_advance_takes_record(
                Seq::<u8>::empty(),
                records[0],
                concat(records.skip(1)) + garbage,
            );
        }
    } else {
        let j = (k - 1) as nat;
        lemma_reader_progress(records, garbage, j);
        if k <= n {
            let later = records.skip(j as int);
            assert(later.first() == records[j as int]);
            assert(later.drop_first() =~= records.skip(k as int));
            assert(concat(later) + garbage =~= records[j as int] + (concat(
                records.skip(k as int),
            ) + garbage));
            lemma_advance_takes_record(
                records[j - 1],
                records[j as int],
                concat(records.skip(k as int)) + garbage,
            );
        } else if k == n + 1 {
            assert(records.skip(n as int) =~= Seq::<Seq<u8>>::empty());
            assert(concat(records.skip(n as int)) + garbage =~= garbage);
            lemma_advance_at_end(records[n - 1], false, garbage);
        } else {
            lemma_advance_after_end(garbage);
        }
    }
}

/// On a stream of whole records followed by less than a leader, as many
/// advances succeed as there are records, each with its record in the
/// window; every further advance fails, with the end of the stream flagged.
pub proof fn lemma_reader_liveness(records: Seq<Seq<u8>>, garbage: Seq<u8>, k: nat)
    requires
        forall|i: int| 0 <= i < records.len() ==> is_whole_record(#[trigger] records[i]),
        garbage.len() < 24,
        k >= 1,
    ensures
        ({
            let (s, rest, r) = after_advances(concat(records) + garbage, k);
            if k <= records.len() {
                r == Ok::<bool, MarcError>(true) && !s.eof && current_record(s.window) == Some(
                    records[k - 1],
                )
            } else {
                r == Ok::<bool, MarcError>(false) && s.eof && current_record(s.window) is None
            }
        }),
{
    lemma_reader_progress(records, garbage, k);
    if k <= records.len() {
        let record = records[k - 1];
        assert(record.subrange(0, record.len() as int) =~= record);
    }
}

/// A block that starts with a whole record and is smaller than this record
/// and the whole record behind it together yields the first record alone,
/// and the scan stops right behind it: there the next block has to start.
pub proof fn lemma_batch_one_record(first: Seq<u8>, second: Seq<u8>, tail: Seq<u8>, size: int)
    requires
        is_whole_record(first),
        is_whole_record(second),
        first.len() <= size < first.len() + second.len(),
    ensures
        scan_end((first + second + tail).subrange(0, size), 0) == Ok::<int, MarcError>(
            first.len() as int,
        ),
        scan_records((first + second + tail).subrange(0, size), 0) == seq![first],
{
    let block = (first + second + tail).subrange(0, size);
    let l = first.len() as int;
    assert(block.subrange(0, 24) =~= first.subrange(0, 24));
    assert(block.subrange(0, l) =~= first);
    assert(scan_end(block, 0) == scan_end(block, l));
    assert(scan_records(block, 0) == seq![first] + scan_records(block, l));
    if l + 24 <= size {
        assert(block.subrange(l, l + 24) =~= second.subrange(0, 24));
    }
    assert(scan_end(block, l) == Ok::<int, MarcError>(l));
    assert(scan_records(block, l) =~= Seq::<Seq<u8>>::empty());
    assert(seq![first] + Seq::<Seq<u8>>::empty() =~= seq![first]);
}

/// A block that is the last record of a stream yields this record, and the
/// scan stops at the end of the block.
pub proof fn lemma_batch_last_record(record: Seq<u8>)
    requires
        is_whole_record(record),
    ensures
        scan_end(record, 0) == Ok::<int, MarcError>(record.len() as int),
        scan_records(record, 0) == seq![record],
{
    let l = record.len() as int;
    assert(record.subrange(0, l) =~= record);
    assert(scan_end(record, 0) == scan_end(record, l));
    assert(scan_records(record, 0) == seq![record] + scan_records(record, l));
    assert(scan_end(record, l) == Ok::<int, MarcError>(l));
    assert(scan_records(record, l) =~= Seq::<Seq<u8>>::empty());
    assert(seq![record] + Seq::<Seq<u8>>::empty() =~= seq![record]);
}

/// A block that is smaller than the record it starts with yields nothing:
/// the scan stops where it began, which is reported as no progress.
pub proof fn lemma_batch_too_small(first: Seq<u8>, tail: Seq<u8>, size: int)
    requires
        is_whole_record(first),
        0 <= size < first.len(),
    ensures
        scan_end((first + tail).subrange(0, size), 0) == Ok::<int, MarcError>(0),
        scan_records((first + tail).subrange(0, size), 0) == Seq::<Seq<u8>>::empty(),
{
    let block = (first + tail).subrange(0, size);
    if size >= 24 {
        assert(block.subrange(0, 24) =~= first.subrange(0, 24));
    }
}

/// In the directory of an encoding every entry starts at the sum of the
/// lengths that the entries before it declare.
pub proof fn lemma_directory_consistency(fields: Seq<(usize, Seq<u8>)>, i: int)
    requires
        encodable(fields),
        0 <= i <= fields.len(),
    ensures
        lengths_before(directory_bytes(fields), i) == start_of(fields, i),
        i < fields.len() ==> entry_start(directory_bytes(fields), i) == lengths_before(
            directory_bytes(fields),
            i,
        ),
    decreases i,
{
    if i > 0 {
        lemma_directory_consistency(fields, i - 1);
        lemma_encoded_field(fields, i - 1);
        lemma_fields_len_take(fields, i - 1);
    } else {
        assert(fields.take(0) =~= Seq::empty());
    }
    if i < fields.len() {
        lemma_encoded_field(fields, i);
    }
}

/// The records of a block lie in it one behind the other, in the order in
/// which they are handed out: together they are the block from the start
/// of the scan to where it stops.
pub proof fn lemma_batch_tiles(block: Seq<u8>, i: int)
    requires
        0 <= i <= block.len(),
        scan_end(block, i) is Ok,
    ensures
        i <= scan_end(block, i)->Ok_0 <= block.len(),
        concat(scan_records(block, i)) == block.subrange(i, scan_end(block, i)->Ok_0),
    decreases block.len() - i,
{
    if i + 24 <= block.len() {
        let l = declared_length(block.subrange(i, i + 24)) as int;
        if l >= 24 && i + l <= block.len() {
            lemma_batch_tiles(block, i + l);
            let rest = scan_records(block, i + l);
            let records = scan_records(block, i);
            assert(records.first() == block.subrange(i, i + l));
            assert(records.drop_first() =~= rest);
            assert(concat(records) =~= block.subrange(i, scan_end(block, i)->Ok_0));
        } else {
            assert(concat(scan_records(block, i)) =~= block.subrange(i, i));
        }
    } else {
        assert(concat(scan_records(block, i)) =~= block.subrange(i, i));
    }
}

} // verus!

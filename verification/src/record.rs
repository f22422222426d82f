//! Fields, subfields and the interface that every kind of record offers.

use vstd::prelude::*;
use vstd::string::*;
use vstd::utf8::valid_utf8;
use crate::error::MarcError;

verus! {

/// Ends the directory and every field.
pub const FIELD_SEPARATOR: u8 = 0x1e;

/// Stands between the subfields of a field.
pub const SUBFIELD_SEPARATOR: u8 = 0x1f;

/// Ends a record.
pub const RECORD_SEPARATOR: u8 = 0x1d;

/// The index at which `needle` first occurs in `s`, or `s.len()` where it
/// does not occur.
pub open spec fn first_index(s: Seq<u8>, needle: u8) -> nat
    decreases s.len(),
{
    if s.len() == 0 || s[0] == needle {
        0
    } else {
        1 + first_index(s.drop_first(), needle)
    }
}

/// Whether `r` names the first occurrence of `needle` in `s`: its index, or
/// `None` where `s` does not hold the needle.
pub open spec fn is_position_of(s: Seq<u8>, needle: u8, r: Option<usize>) -> bool {
    match r {
        Some(i) => i == first_index(s, needle) && i < s.len(),
        None => first_index(s, needle) == s.len(),
    }
}

/// `first_index` is at most the length, names an occurrence where it is
/// below the length, and nothing before it is the needle.
pub proof fn lemma_first_index(s: Seq<u8>, needle: u8)
    ensures
        first_index(s, needle) <= s.len(),
        first_index(s, needle) < s.len() ==> s[first_index(s, needle) as int] == needle,
        forall|j: int| 0 <= j < first_index(s, needle) ==> s[j] != needle,
    decreases s.len(),
{
    if s.len() == 0 || s[0] == needle {
    } else {
        let t = s.drop_first();
        lemma_first_index(t, needle);
        assert forall|j: int| 0 <= j < first_index(s, needle) implies s[j] != needle by {
            if j > 0 {
                assert(s[j] == t[j - 1]);
            }
        }
    }
}

/// An index that holds the needle, with no needle before it, is the first index.
pub proof fn lemma_first_index_unique(s: Seq<u8>, needle: u8, i: int)
    requires
        0 <= i <= s.len(),
        i < s.len() ==> s[i] == needle,
        forall|j: int| 0 <= j < i ==> s[j] != needle,
    ensures
        first_index(s, needle) == i,
{
    lemma_first_index(s, needle);
    let f = first_index(s, needle) as int;
    if f < i {
        assert(s[f] == needle);
    }
}

/// `memchr::memchr`: the result is the least index of the haystack that holds
/// the needle, and `None` exactly where no index holds it.
pub assume_specification[ memchr::memchr ](needle: u8, haystack: &[u8]) -> (r: Option<usize>)
    ensures
        match r {
            Some(i) => i < haystack@.len() && haystack@[i as int] == needle && forall|j: int|
                0 <= j < i ==> haystack@[j] != needle,
            None => forall|j: int| 0 <= j < haystack@.len() ==> haystack@[j] != needle,
        },
;

/// Where the first field separator of `data` stands.
pub fn end_of_entry_position(data: &[u8]) -> (r: Option<usize>)
    ensures
        is_position_of(data@, FIELD_SEPARATOR, r),
{
    let r = memchr::memchr(FIELD_SEPARATOR, data);
    proof {
        match r {
            Some(i) => lemma_first_index_unique(data@, FIELD_SEPARATOR, i as int),
            None => lemma_first_index_unique(data@, FIELD_SEPARATOR, data@.len() as int),
        }
    }
    r
}

/// Where the first subfield separator of `data` stands.
pub fn end_of_subfield_position(data: &[u8]) -> (r: Option<usize>)
    ensures
        is_position_of(data@, SUBFIELD_SEPARATOR, r),
{
    let r = memchr::memchr(SUBFIELD_SEPARATOR, data);
    proof {
        match r {
            Some(i) => lemma_first_index_unique(data@, SUBFIELD_SEPARATOR, i as int),
            None => lemma_first_index_unique(data@, SUBFIELD_SEPARATOR, data@.len() as int),
        }
    }
    r
}

/// `core::str::from_utf8`: it accepts exactly the byte strings that are valid
/// UTF-8, and the string it hands back has the bytes it was given.
#[verifier::external_body]
fn str_from_utf8<'a>(bytes: &'a [u8]) -> (r: Option<&'a str>)
    ensures
        r is Some <==> valid_utf8(bytes@),
        r matches Some(s) ==> s.spec_bytes() == bytes@,
{
    match core::str::from_utf8(bytes) {
        Ok(s) => Some(s),
        Err(_) => None,
    }
}

/// A field that owns its content.
pub struct OwnedRecordField {
    pub field_type: usize,
    pub data: Vec<u8>,
}

impl View for OwnedRecordField {
    type V = (usize, Seq<u8>);

    open spec fn view(&self) -> (usize, Seq<u8>) {
        (self.field_type, self.data@)
    }
}

/// A field whose content lies in a buffer that somebody else owns.
pub struct RecordField<'s> {
    pub field_type: usize,
    pub data: &'s [u8],
}

impl<'s> View for RecordField<'s> {
    type V = (usize, Seq<u8>);

    open spec fn view(&self) -> (usize, Seq<u8>) {
        (self.field_type, self.data@)
    }
}

/// The first subfield of a non-empty field content: the bytes before the
/// first subfield separator, or all of them where there is none.
pub open spec fn subfield_head(data: Seq<u8>) -> Seq<u8> {
    data.subrange(0, first_index(data, SUBFIELD_SEPARATOR) as int)
}

/// What follows the first subfield and its separator.
pub open spec fn subfield_rest(data: Seq<u8>) -> Seq<u8> {
    if first_index(data, SUBFIELD_SEPARATOR) < data.len() {
        data.subrange(first_index(data, SUBFIELD_SEPARATOR) as int + 1, data.len() as int)
    } else {
        Seq::empty()
    }
}

/// The subfields of a field content: the runs of bytes between subfield
/// separators, without an empty run after the last separator.
pub open spec fn subfields_of(data: Seq<u8>) -> Seq<Seq<u8>>
    decreases data.len(),
{
    if data.len() == 0 {
        Seq::empty()
    } else {
        seq![subfield_head(data)] + subfields_of(subfield_rest(data))
    }
}

/// What `indicator` answers for the content `data` and the position `i`.
pub open spec fn indicator_of(data: Seq<u8>, i: int) -> Option<u8> {
    if data.contains(SUBFIELD_SEPARATOR) && 0 <= i < data.len() {
        Some(data[i])
    } else {
        None
    }
}

/// A content holds the separator exactly where its first index lies inside.
pub proof fn lemma_contains_first_index(s: Seq<u8>, needle: u8)
    ensures
        s.contains(needle) <==> first_index(s, needle) < s.len(),
{
    lemma_first_index(s, needle);
    if s.contains(needle) {
        let i = choose|i: int| 0 <= i < s.len() && s[i] == needle;
        assert(s[i] == needle);
    }
}

impl<'s> RecordField<'s> {
    /// The content as text.
    pub fn utf8_data(&self) -> (r: &'s str)
        requires
            valid_utf8(self.data@),
        ensures
            r.spec_bytes() == self.data@,
    {
        match str_from_utf8(self.data) {
            Some(s) => s,
            None => {
                proof {
                    assert(false);
                }
                ""
            },
        }
    }

    /// A copy that owns its content.
    pub fn to_owned(&self) -> (r: OwnedRecordField)
        ensures
            r@ == self@,
    {
        OwnedRecordField { field_type: self.field_type, data: vstd::slice::slice_to_vec(self.data) }
    }

    /// Whether a tag names a data field: the tags below ten name control fields.
    pub fn is_data_field_type(field_type: usize) -> (r: bool)
        ensures
            r == (field_type >= 10),
    {
        field_type >= 10
    }

    /// Whether the content holds a subfield separator.
    pub fn has_subfields(&self) -> (r: bool)
        ensures
            r == self.data@.contains(SUBFIELD_SEPARATOR),
    {
        proof {
            lemma_contains_first_index(self.data@, SUBFIELD_SEPARATOR);
        }
        end_of_subfield_position(self.data).is_some()
    }

    /// The first or the second indicator of a field with subfields; `None`
    /// for a field without subfields, and where the content has no byte at
    /// that position.
    pub fn indicator(&self, i: usize) -> (r: Option<u8>)
        requires
            i < 2,
        ensures
            r == indicator_of(self.data@, i as int),
    {
        if !self.has_subfields() {
            return None;
        }
        if i < self.data.len() {
            Some(self.data[i])
        } else {
            None
        }
    }

    /// Starts a walk over the subfields.
    pub fn subfield_iter(&self) -> (r: SubfieldIter<'s>)
        ensures
            r@ == self.data@,
    {
        SubfieldIter { data: self.data }
    }
}

/// One subfield of a field.
pub struct Subfield<'s> {
    data: &'s [u8],
}

impl<'s> View for Subfield<'s> {
    type V = Seq<u8>;

    closed spec fn view(&self) -> Seq<u8> {
        self.data@
    }
}

impl<'s> Subfield<'s> {
    /// The subfield as text.
    pub fn utf8_data(&self) -> (r: &'s str)
        requires
            valid_utf8(self@),
        ensures
            r.spec_bytes() == self@,
    {
        match str_from_utf8(self.data) {
            Some(s) => s,
            None => {
                proof {
                    assert(false);
                }
                ""
            },
        }
    }
}

/// A walk over the subfields of a field; its view is the content that has
/// not been handed out yet.
pub struct SubfieldIter<'s> {
    data: &'s [u8],
}

impl<'s> View for SubfieldIter<'s> {
    type V = Seq<u8>;

    closed spec fn view(&self) -> Seq<u8> {
        self.data@
    }
}

impl<'s> SubfieldIter<'s> {
    /// Hands out the next subfield: `None` once the content is used up.
    pub fn next(&mut self) -> (r: Option<Subfield<'s>>)
        ensures
            old(self)@.len() == 0 ==> r is None && final(self)@ == old(self)@,
            old(self)@.len() > 0 ==> r is Some && r->0@ == subfield_head(old(self)@) && final(self)@
                == subfield_rest(old(self)@),
            subfields_of(old(self)@) == match r {
                Some(sub) => seq![sub@] + subfields_of(final(self)@),
                None => Seq::empty(),
            },
    {
        let data: &'s [u8] = self.data;
        let len: usize = data.len();
        proof {
            lemma_first_index(data@, SUBFIELD_SEPARATOR);
        }
        if let Some(pos) = end_of_subfield_position(data) {
            let r: &'s [u8] = &data[0..pos];
            self.data = &data[pos + 1..len];
            Some(Subfield { data: r })
        } else if len > 0 {
            let r: &'s [u8] = &data[0..len];
            self.data = &data[0..0];
            assert(self.data@ =~= Seq::<u8>::empty());
            Some(Subfield { data: r })
        } else {
            None
        }
    }
}

/// The kinds of record that the codec knows.
#[derive(Debug, PartialEq, Eq, Clone, Copy, Structural)]
pub enum RecordType {
    Authority,
}

/// What `RecordType::from_str` answers for the characters `s`.
pub open spec fn record_type_of_str(s: Seq<char>) -> Result<Option<RecordType>, MarcError> {
    if s == seq!['a'] {
        Ok(Some(RecordType::Authority))
    } else if s == seq!['*'] {
        Ok(None)
    } else {
        Err(MarcError::NotImplemented)
    }
}

impl RecordType {
    /// The byte of the leader that names this kind of record.
    pub open spec fn code(self) -> u8 {
        match self {
            RecordType::Authority => 0x7a,
        }
    }

    /// Reads a kind of record from its name: `"a"` names authority records,
    /// `"*"` names no kind in particular, and no other name is known yet.
    pub fn from_str(s: &str) -> (r: Result<Option<RecordType>, MarcError>)
        ensures
            r == record_type_of_str(s@),
    {
        if s.unicode_len() != 1 {
            return Err(MarcError::NotImplemented);
        }
        let c: char = s.get_char(0);
        if c == 'a' {
            assert(s@ =~= seq!['a']);
            Ok(Some(RecordType::Authority))
        } else if c == '*' {
            assert(s@ =~= seq!['*']);
            Ok(None)
        } else {
            Err(MarcError::NotImplemented)
        }
    }
}

/// Whether every tag of the list is at most the tags that follow it.
pub open spec fn is_ascending(tags: Seq<usize>) -> bool {
    forall|i: int, j: int| 0 <= i <= j < tags.len() ==> tags[i] <= tags[j]
}

/// What a binary search for `tag` answers on the part `[lo, hi)` of `tags`:
/// it looks at the middle and goes on in the half that an ascending list
/// would hold the tag in.
pub open spec fn search_hits(tags: Seq<usize>, tag: usize, lo: int, hi: int) -> bool
    decreases hi - lo,
{
    if lo >= hi {
        false
    } else {
        let mid = lo + (hi - lo) / 2;
        if tags[mid] == tag {
            true
        } else if tags[mid] < tag {
            search_hits(tags, tag, mid + 1, hi)
        } else {
            search_hits(tags, tag, lo, mid)
        }
    }
}

/// Whether the search finds `tag` in the whole list.
pub open spec fn is_listed(tags: Seq<usize>, tag: usize) -> bool {
    search_hits(tags, tag, 0, tags.len() as int)
}

/// A tag that the search finds is in the part searched, whatever the order
/// of the list.
pub proof fn lemma_search_sound(tags: Seq<usize>, tag: usize, lo: int, hi: int)
    requires
        0 <= lo <= hi <= tags.len(),
        search_hits(tags, tag, lo, hi),
    ensures
        exists|k: int| lo <= k < hi && tags[k] == tag,
    decreases hi - lo,
{
    let mid = lo + (hi - lo) / 2;
    if tags[mid] == tag {
    } else if tags[mid] < tag {
        lemma_search_sound(tags, tag, mid + 1, hi);
    } else {
        lemma_search_sound(tags, tag, lo, mid);
    }
}

/// In an ascending list the search finds every tag of the part searched.
pub proof fn lemma_search_complete(tags: Seq<usize>, tag: usize, lo: int, hi: int, k: int)
    requires
        is_ascending(tags),
        0 <= lo <= k < hi <= tags.len(),
        tags[k] == tag,
    ensures
        search_hits(tags, tag, lo, hi),
    decreases hi - lo,
{
    let mid = lo + (hi - lo) / 2;
    if tags[mid] == tag {
    } else if tags[mid] < tag {
        lemma_search_complete(tags, tag, mid + 1, hi, k);
    } else {
        lemma_search_complete(tags, tag, lo, mid, k);
    }
}

/// For an ascending list, to be listed is to be in the list. For a list in
/// any other order the search finds only tags of the list, and may miss some.
pub proof fn lemma_listed_is_contained(tags: Seq<usize>, tag: usize)
    ensures
        is_listed(tags, tag) ==> tags.contains(tag),
        is_ascending(tags) ==> (is_listed(tags, tag) <==> tags.contains(tag)),
{
    if is_listed(tags, tag) {
        lemma_search_sound(tags, tag, 0, tags.len() as int);
    }
    if is_ascending(tags) && tags.contains(tag) {
        let k = choose|k: int| 0 <= k < tags.len() && tags[k] == tag;
        lemma_search_complete(tags, tag, 0, tags.len() as int, k);
    }
}

/// Looks `tag` up in `tags` by binary search. The list has to be ascending
/// for every tag of it to be found.
pub fn tag_listed(tags: &[usize], tag: usize) -> (r: bool)
    ensures
        r == is_listed(tags@, tag),
{
    let mut lo: usize = 0;
    let mut hi: usize = tags.len();
    while lo < hi
        invariant
            0 <= lo <= hi <= tags@.len(),
            is_listed(tags@, tag) == search_hits(tags@, tag, lo as int, hi as int),
        decreases hi - lo,
    {
        let mid: usize = lo + (hi - lo) / 2;
        if tags[mid] == tag {
            return true;
        } else if tags[mid] < tag {
            lo = mid + 1;
        } else {
            hi = mid;
        }
    }
    false
}

/// The filter of a walk that keeps one tag, or every tag where none is named.
pub open spec fn keeps_tag(filter: Option<usize>) -> spec_fn(usize) -> bool {
    |t: usize| filter is None || filter == Some(t)
}

/// The filter of a walk that keeps the tags that the search finds in a list.
pub open spec fn keeps_listed(tags: Seq<usize>) -> spec_fn(usize) -> bool {
    |t: usize| is_listed(tags, t)
}

/// The fields whose tag a filter keeps, in their order.
pub open spec fn selected(fields: Seq<(usize, Seq<u8>)>, keep: spec_fn(usize) -> bool) -> Seq<
    (usize, Seq<u8>),
> {
    fields.filter(|f: (usize, Seq<u8>)| keep(f.0))
}

/// The index of the first field at or after `from` whose tag the filter
/// keeps; the number of fields where there is none, and `from` itself where
/// it lies behind the last field.
pub open spec fn next_match(
    fields: Seq<(usize, Seq<u8>)>,
    keep: spec_fn(usize) -> bool,
    from: int,
) -> int
    decreases fields.len() - from,
{
    if from >= fields.len() || (0 <= from && keep(fields[from].0)) {
        from
    } else {
        next_match(fields, keep, from + 1)
    }
}

/// What a list of fields stands for: the tag and the content of each.
pub open spec fn field_views(v: Seq<RecordField>) -> Seq<(usize, Seq<u8>)> {
    Seq::new(v.len(), |i: int| v[i]@)
}

/// The next match lies at or after the start, no field between the two is
/// kept, and the match itself is.
pub proof fn lemma_next_match(fields: Seq<(usize, Seq<u8>)>, keep: spec_fn(usize) -> bool, from: int)
    requires
        0 <= from <= fields.len(),
    ensures
        from <= next_match(fields, keep, from) <= fields.len(),
        next_match(fields, keep, from) < fields.len() ==> keep(
            fields[next_match(fields, keep, from)].0,
        ),
        selected(fields.take(next_match(fields, keep, from)), keep) == selected(
            fields.take(from),
            keep,
        ),
    decreases fields.len() - from,
{
    if from >= fields.len() || keep(fields[from].0) {
    } else {
        lemma_next_match(fields, keep, from + 1);
        lemma_selected_take(fields, keep, from);
    }
}

/// Taking one more field adds it to the selection exactly where the filter
/// keeps its tag.
pub proof fn lemma_selected_take(fields: Seq<(usize, Seq<u8>)>, keep: spec_fn(usize) -> bool, i: int)
    requires
        0 <= i < fields.len(),
    ensures
        selected(fields.take(i + 1), keep) == if keep(fields[i].0) {
            selected(fields.take(i), keep).push(fields[i])
        } else {
            selected(fields.take(i), keep)
        },
{
    let p = |f: (usize, Seq<u8>)| keep(f.0);
    assert(fields.take(i + 1) =~= fields.take(i).push(fields[i]));
    fields.take(i).lemma_filter_push(fields[i], p);
}

/// A walk without a filter keeps every field.
pub proof fn lemma_selected_all(fields: Seq<(usize, Seq<u8>)>)
    ensures
        selected(fields, keeps_tag(None)) == fields,
    decreases fields.len(),
{
    let p = |f: (usize, Seq<u8>)| keeps_tag(None)(f.0);
    if fields.len() == 0 {
        reveal(Seq::filter);
        assert(fields.filter(p) =~= fields);
    } else {
        let head = fields.drop_last();
        lemma_selected_all(head);
        assert(fields =~= head.push(fields.last()));
        head.lemma_filter_push(fields.last(), p);
    }
}

/// Two filters that keep the same tags select the same fields.
pub proof fn lemma_selected_same(
    fields: Seq<(usize, Seq<u8>)>,
    keep1: spec_fn(usize) -> bool,
    keep2: spec_fn(usize) -> bool,
)
    requires
        forall|t: usize| #[trigger] keep1(t) == keep2(t),
    ensures
        selected(fields, keep1) == selected(fields, keep2),
    decreases fields.len(),
{
    let left = |f: (usize, Seq<u8>)| keep1(f.0);
    let right = |f: (usize, Seq<u8>)| keep2(f.0);
    if fields.len() == 0 {
        reveal(Seq::filter);
        assert(fields.filter(left) =~= fields.filter(right));
    } else {
        let head = fields.drop_last();
        lemma_selected_same(head, keep1, keep2);
        assert(fields =~= head.push(fields.last()));
        head.lemma_filter_push(fields.last(), left);
        head.lemma_filter_push(fields.last(), right);
    }
}

/// A list of one tag selects what the filter for that tag selects.
pub proof fn lemma_single_tag_list(fields: Seq<(usize, Seq<u8>)>, tag: usize)
    ensures
        selected(fields, keeps_listed(seq![tag])) == selected(fields, keeps_tag(Some(tag))),
{
    let keep1 = keeps_listed(seq![tag]);
    let keep2 = keeps_tag(Some(tag));
    assert forall|t: usize| #[trigger] keep1(t) == keep2(t) by {
        let tags = seq![tag];
        assert(tags[0] == tag);
        assert(search_hits(tags, t, 1, 1) == false);
        assert(search_hits(tags, t, 0, 0) == false);
        assert(search_hits(tags, t, 0, 1) == (t == tag));
    }
    lemma_selected_same(fields, keep1, keep2);
}

/// What every kind of record offers: its type, its fields and its encoding.
pub trait Record {
    /// What the record needs to hold for its methods to be called.
    spec fn inv(&self) -> bool;

    /// The kind of the record, or why it cannot be told.
    spec fn spec_record_type(&self) -> Result<RecordType, MarcError>;

    /// The fields of the record in their order, or why they cannot be read.
    spec fn spec_fields(&self) -> Result<Seq<(usize, Seq<u8>)>, MarcError>;

    /// Whether the record can be walked with a list of tags.
    spec fn filters_by_list(&self) -> bool;

    /// The bytes that encode the record, or why it cannot be encoded.
    spec fn spec_marc21(&self) -> Result<Seq<u8>, MarcError>;

    /// The kind of the record.
    fn record_type(&self) -> (r: Result<RecordType, MarcError>)
        requires
            self.inv(),
        ensures
            r == self.spec_record_type(),
    ;

    /// The fields with the tag `field_type`, or all fields where it is
    /// `None`, in the order of the record.
    fn field_iter(&self, field_type: Option<usize>) -> (r: Result<Vec<RecordField<'_>>, MarcError>)
        requires
            self.inv(),
        ensures
            match self.spec_fields() {
                Ok(fields) => r is Ok && field_views(r->Ok_0@) == selected(
                    fields,
                    keeps_tag(field_type),
                ),
                Err(e) => r is Err && r->Err_0 == e,
            },
    ;

    /// The fields whose tag a binary search finds in `field_types`, in the
    /// order of the record. The list has to be ascending: of a list in
    /// another order some tags are not found, and their fields are left out.
    fn field_iter_vec(&self, field_types: &[usize]) -> (r: Result<Vec<RecordField<'_>>, MarcError>)
        requires
            self.inv(),
        ensures
            self.filters_by_list() ==> match self.spec_fields() {
                Ok(fields) => r is Ok && field_views(r->Ok_0@) == selected(
                    fields,
                    keeps_listed(field_types@),
                ),
                Err(e) => r is Err && r->Err_0 == e,
            },
            !self.filters_by_list() ==> r is Err && r->Err_0 == MarcError::NotImplemented,
    ;

    /// Appends the encoding of the record to `writer`, which is left as it
    /// was where the record cannot be encoded.
    fn to_marc21(&self, writer: &mut Vec<u8>) -> (r: Result<(), MarcError>)
        requires
            self.inv(),
        ensures
            match self.spec_marc21() {
                Ok(bytes) => r is Ok && final(writer)@ == old(writer)@ + bytes,
                Err(e) => r == Err::<(), MarcError>(e) && final(writer)@ == old(writer)@,
            },
    ;
}

} // verus!

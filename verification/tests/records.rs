use marc21::marcrecord::MARCHEADER_SIZE;
use marc21::record::{end_of_entry_position, end_of_subfield_position, tag_listed};
use marc21::{
    AuthorityRecordCharacterCodingScheme, AuthorityRecordMeta, AuthorityRecordStatus, MarcError,
    MarcHeader, MarcRecord, MarcRecordFieldIter, MarcRecordFieldIterVec, OwnedRecord,
    OwnedRecordField, ParsedRecord, ParsedRecordFieldIter, Record, RecordField, RecordMeta,
    RecordType,
};

const STR: &[u8] = b"00827nz  a2200241nc 4500\
001001000000\
003000700010\
005001700017\
008004100034\
024005100075\
035002200126\
035002200148\
035002900170\
040004000199\
042000900239\
065001600248\
075001400264\
079000900278\
083004200287\
150001200329\
550019200341\
670001200533\
913004000545\
\x1e040000028\x1eDE-101\x1e20100106125650.0\x1e880701n||azznnbabn           | ana    |c\x1e7 \x1fa4000002-3\x1f0http://d-nb.info/gnd/4000002-3\x1f2gnd\x1e  \x1fa(DE-101)040000028\x1e  \x1fa(DE-588)4000002-3\x1e  \x1fz(DE-588c)4000002-3\x1f9v:zg\x1e  \x1faDE-101\x1fcDE-101\x1f9r:DE-101\x1fbger\x1fd0832\x1e  \x1fagnd1\x1e  \x1fa31.9b\x1f2sswd\x1e  \x1fbs\x1f2gndgen\x1e  \x1fag\x1fqs\x1e04\x1fa621.381537\x1f9d:2\x1f9t:2010-01-06\x1f223/ger\x1e  \x1faA 302 D\x1e  \x1f0(DE-101)040272427\x1f0(DE-588)4027242-4\x1f0https://d-nb.info/gnd/4027242-4\x1faIntegrierte Schaltung\x1f4obal\x1f4https://d-nb.info/standards/elementset/gnd#broaderTermGeneral\x1fwr\x1fiOberbegriff allgemein\x1e  \x1faVorlage\x1e  \x1fSswd\x1fis\x1faA 302 D\x1f0(DE-588c)4000002-3\x1e\x1d";

const LAST_FIELD: &str = "  \x1fSswd\x1fis\x1faA 302 D\x1f0(DE-588c)4000002-3";

fn fixture_record() -> MarcRecord<'static> {
    MarcRecord::new(MarcHeader::new(&STR[..24]), &STR[24..])
}

fn record_of(bytes: &[u8]) -> MarcRecord<'_> {
    MarcRecord::new(MarcHeader::new(&bytes[..24]), &bytes[24..])
}

fn owned_field(field_type: usize, data: &[u8]) -> OwnedRecordField {
    OwnedRecordField { field_type, data: data.to_vec() }
}

fn tags(fields: &[RecordField]) -> Vec<usize> {
    fields.iter().map(|f| f.field_type).collect()
}

#[test]
fn parse_one() {
    let header = MarcHeader::new(&STR[..24]);
    let unparsed_record = MarcRecord::new(header, &STR[24..]);
    let parsed_record = ParsedRecord::new(&unparsed_record).unwrap();
    assert_eq!(parsed_record.num_fields(), 18);
    assert_eq!(parsed_record.field_iter(None).unwrap().len(), parsed_record.num_fields());
    assert_eq!(parsed_record.field_iter(Some(35)).unwrap().len(), 3);
    let fields = parsed_record.field_iter(None).unwrap();
    let first = fields.first().expect("not enough elements");
    let last = fields.last().expect("not enough elements");
    assert_eq!(first.utf8_data(), "040000028");
    assert_eq!(last.utf8_data(), "  \x1fSswd\x1fis\x1faA 302 D\x1f0(DE-588c)4000002-3");
}

#[test]
fn fixture_decodes() {
    assert_eq!(MARCHEADER_SIZE, 24);
    assert_eq!(STR.len(), 827);
    let record = fixture_record();
    assert_eq!(record.header().record_length(), 827);
    assert_eq!(record.header().bytes(), &STR[..24]);
    assert_eq!(record.record_length(), 827);
    assert_eq!(record.data(), &STR[24..]);
    assert_eq!(record.record_type(), Ok(RecordType::Authority));
    let dir = record.directory().unwrap();
    assert_eq!(dir.num_entries(), 18);
    assert_eq!(dir.byte_len(), 216);
    let fields = record.field_iter(None).unwrap();
    assert_eq!(fields.len(), 18);
    assert_eq!(fields[0].data, b"040000028");
    assert!(fields[17].utf8_data().ends_with("4000002-3"));
    assert_eq!(fields[17].utf8_data(), LAST_FIELD);
    let mut bytes = Vec::new();
    record.to_marc21(&mut bytes).unwrap();
    assert_eq!(bytes, STR);
    bytes.clear();
    record.to_owned().unwrap().to_marc21(&mut bytes).unwrap();
    assert_eq!(bytes.len(), 827);
    assert_eq!(bytes, STR);
}

#[test]
fn unfiltered_walk_follows_the_directory() {
    let record = fixture_record();
    let dir = record.directory().unwrap();
    let entries = record.entries().unwrap();
    let fields = record.field_iter(None).unwrap();
    assert_eq!(fields.len(), dir.num_entries());
    assert_eq!(entries.num_entries(), dir.num_entries());
    let payload = &STR[24 + dir.byte_len()..];
    for i in 0..dir.num_entries() {
        let entry = dir.get_entry(i);
        assert_eq!(fields[i].field_type, entry.entry_type());
        assert_eq!(fields[i].data.len() + 1, entry.len());
        assert_eq!(fields[i].data, &payload[entry.start() + 1..entry.start() + entry.len()]);
        assert_eq!(entries.field_type(i), entry.entry_type());
        assert_eq!(entries.field(i).data, fields[i].data);
    }
}

#[test]
fn walk_with_one_tag_filters_the_unfiltered_walk() {
    let record = fixture_record();
    let all = record.field_iter(None).unwrap();
    for tag in [1usize, 35, 40, 913, 2, 999] {
        let some = record.field_iter(Some(tag)).unwrap();
        let expected: Vec<&RecordField> = all.iter().filter(|f| f.field_type == tag).collect();
        assert_eq!(some.len(), expected.len());
        for (a, b) in some.iter().zip(expected) {
            assert_eq!(a.field_type, b.field_type);
            assert_eq!(a.data, b.data);
        }
    }
    assert_eq!(record.field_iter(Some(35)).unwrap().len(), 3);
    assert_eq!(record.field_iter(Some(2)).unwrap().len(), 0);
}

#[test]
fn walk_with_a_sorted_list_is_the_union_of_the_single_walks() {
    let record = fixture_record();
    let fields = record.field_iter_vec(&[1, 35, 150, 913]).unwrap();
    assert_eq!(tags(&fields), vec![1, 35, 35, 35, 150, 913]);
    assert_eq!(fields[0].data, b"040000028");
    assert_eq!(fields[5].utf8_data(), LAST_FIELD);
    assert_eq!(record.field_iter_vec(&[]).unwrap().len(), 0);
    assert_eq!(record.field_iter_vec(&[2, 4]).unwrap().len(), 0);
    let owned = record.to_owned().unwrap();
    assert_eq!(tags(&owned.field_iter_vec(&[1, 35, 150, 913]).unwrap()), vec![1, 35, 35, 35, 150, 913]);
    assert_eq!(owned.field_iter_vec(&[]).unwrap().len(), 0);
    assert_eq!(tags(&owned.field_iter(Some(35)).unwrap()), vec![35, 35, 35]);
    assert_eq!(owned.field_iter(None).unwrap().len(), 18);
}

#[test]
fn walk_with_an_unsorted_list_misses_tags() {
    let record = fixture_record();
    // the search looks at 1 first, goes on to the right of it and finds 35 there
    let fields = record.field_iter_vec(&[913, 1, 35]).unwrap();
    assert_eq!(tags(&fields), vec![1, 35, 35, 35]);
    assert!(tag_listed(&[1, 35, 913], 913));
    assert!(!tag_listed(&[913, 1, 35], 913));
    assert!(!tag_listed(&[], 1));
    assert!(tag_listed(&[5], 5));
    assert!(!tag_listed(&[5], 6));
}

#[test]
fn field_walks_step_by_step() {
    let record = fixture_record();
    let mut it = MarcRecordFieldIter::new(&record, Some(35)).unwrap();
    let mut count = 0;
    while let Some(field) = it.next() {
        assert_eq!(field.field_type, 35);
        count += 1;
    }
    assert_eq!(count, 3);
    assert!(it.next().is_none());
    let mut it = MarcRecordFieldIterVec::new(&record, &[1, 3]).unwrap();
    assert_eq!(it.next().unwrap().data, b"040000028");
    assert_eq!(it.next().unwrap().data, b"DE-101");
    assert!(it.next().is_none());
    let parsed = ParsedRecord::new(&record).unwrap();
    let mut it = ParsedRecordFieldIter::new(&parsed, Some(3));
    assert_eq!(it.next().unwrap().data, b"DE-101");
    assert!(it.next().is_none());
}

#[test]
fn separator_positions() {
    assert_eq!(end_of_entry_position(b"0123\x1e56\x1e"), Some(4));
    assert_eq!(end_of_entry_position(b"\x1e"), Some(0));
    assert_eq!(end_of_entry_position(b"0123\x1f\x1d"), None);
    assert_eq!(end_of_entry_position(b""), None);
    assert_eq!(end_of_subfield_position(b"ab\x1e\x1fcd\x1f"), Some(3));
    assert_eq!(end_of_subfield_position(b"ab\x1e"), None);
    assert_eq!(end_of_entry_position(&STR[24..]), Some(216));
}

#[test]
fn malformed_bodies_are_reported() {
    // no field separator at all
    let bytes = b"00030nz  a2200241nc 4500abcdef";
    let record = record_of(bytes);
    assert_eq!(record.directory().err(), Some(MarcError::Malformed));
    assert_eq!(record.entries().err(), Some(MarcError::Malformed));
    assert_eq!(record.field_iter(None).err(), Some(MarcError::Malformed));
    assert_eq!(record.field_iter_vec(&[1]).err(), Some(MarcError::Malformed));
    assert_eq!(record.to_owned().err(), Some(MarcError::Malformed));
    assert_eq!(ParsedRecord::new(&record).err(), Some(MarcError::Malformed));
    assert_eq!(MarcRecordFieldIter::new(&record, None).err(), Some(MarcError::Malformed));
    assert_eq!(MarcRecordFieldIterVec::new(&record, &[]).err(), Some(MarcError::Malformed));
    // the pass-through encoding does not look at the body
    let mut out = Vec::new();
    assert_eq!(record.to_marc21(&mut out), Ok(()));
    assert_eq!(out, bytes);
    // a directory that is not made of whole entries
    let record = record_of(b"00000nz  a2200241nc 45000010005\x1eabcd\x1e\x1d");
    assert_eq!(record.directory().unwrap().num_entries(), 0);
    assert_eq!(record.entries().err(), Some(MarcError::Malformed));
    // an entry whose window ends behind the field data
    let record = record_of(b"00000nz  a2200241nc 4500001000700000\x1eabcd\x1e\x1d");
    assert_eq!(record.directory().unwrap().num_entries(), 1);
    assert_eq!(record.field_iter(None).unwrap()[0].data, b"abcd\x1e\x1d");
    let record = record_of(b"00000nz  a2200241nc 4500001000800000\x1eabcd\x1e\x1d");
    assert_eq!(record.field_iter(None).err(), Some(MarcError::Malformed));
    assert_eq!(record.field_iter(Some(5)).err(), Some(MarcError::Malformed));
    // an entry of length zero
    let record = record_of(b"00000nz  a2200241nc 4500001000000000\x1eabcd\x1e\x1d");
    assert_eq!(record.entries().err(), Some(MarcError::Malformed));
    let dir = record.directory().unwrap();
    assert_eq!(RecordMeta::new(&record, &dir).err(), Some(MarcError::Malformed));
}

#[test]
fn empty_record_decodes_and_encodes() {
    let bytes = b"00026nz  a2200241nc 4500\x1e\x1d";
    let record = record_of(bytes);
    assert_eq!(record.directory().unwrap().num_entries(), 0);
    assert_eq!(record.field_iter(None).unwrap().len(), 0);
    let owned = record.to_owned().unwrap();
    let mut out = Vec::new();
    owned.to_marc21(&mut out).unwrap();
    assert_eq!(out, bytes);
}

#[test]
fn unknown_record_types_are_not_implemented() {
    let mut bytes = STR.to_vec();
    bytes[6] = b'a';
    let record = record_of(&bytes);
    assert_eq!(record.header().record_type(), Err(MarcError::NotImplemented));
    assert_eq!(record.record_type(), Err(MarcError::NotImplemented));
    assert_eq!(ParsedRecord::new(&record).err(), Some(MarcError::NotImplemented));
    assert_eq!(record.field_iter(None).unwrap().len(), 18);
    assert_eq!(RecordType::from_str("a"), Ok(Some(RecordType::Authority)));
    assert_eq!(RecordType::from_str("*"), Ok(None));
    assert_eq!(RecordType::from_str("z"), Err(MarcError::NotImplemented));
    assert_eq!(RecordType::from_str(""), Err(MarcError::NotImplemented));
    assert_eq!(RecordType::from_str("ab"), Err(MarcError::NotImplemented));
}

#[test]
fn leader_metadata_is_checked() {
    let statuses = [
        (b'a', AuthorityRecordStatus::IncreaseEncodingLevel),
        (b'c', AuthorityRecordStatus::Corrected),
        (b'd', AuthorityRecordStatus::Deleted),
        (b'n', AuthorityRecordStatus::New),
        (b'o', AuthorityRecordStatus::Obsolete),
        (b's', AuthorityRecordStatus::Split),
        (b'x', AuthorityRecordStatus::Replaced),
    ];
    for (code, status) in statuses {
        let mut bytes = STR.to_vec();
        bytes[5] = code;
        let record = record_of(&bytes);
        assert!(ParsedRecord::new(&record).is_ok());
        let dir = record.directory().unwrap();
        match RecordMeta::new(&record, &dir).unwrap() {
            RecordMeta::AuthorityMeta(meta) => {
                assert_eq!(meta.status(), status);
                assert_eq!(
                    meta.character_coding_scheme(),
                    AuthorityRecordCharacterCodingScheme::Unicode
                );
                assert_eq!(meta.record_type(), RecordType::Authority);
                assert_eq!(meta.num_fields(), 18);
            }
        }
    }
    let empty = AuthorityRecordMeta::empty_new();
    assert_eq!(empty.status(), AuthorityRecordStatus::New);
    assert_eq!(empty.character_coding_scheme(), AuthorityRecordCharacterCodingScheme::Unicode);
    assert_eq!(empty.num_fields(), 0);
    let mut bytes = STR.to_vec();
    bytes[5] = b'q';
    assert_eq!(ParsedRecord::new(&record_of(&bytes)).err(), Some(MarcError::Malformed));
    let mut bytes = STR.to_vec();
    bytes[9] = b' ';
    let record = record_of(&bytes);
    assert_eq!(ParsedRecord::new(&record).err(), Some(MarcError::NotImplemented));
    let dir = record.directory().unwrap();
    assert_eq!(RecordMeta::new(&record, &dir).err(), Some(MarcError::NotImplemented));
    // the type is looked at before the status
    let mut bytes = STR.to_vec();
    bytes[5] = b'q';
    bytes[6] = b'a';
    assert_eq!(ParsedRecord::new(&record_of(&bytes)).err(), Some(MarcError::NotImplemented));
}

#[test]
fn parsed_record_metadata() {
    let record = fixture_record();
    let dir = record.directory().unwrap();
    let meta = RecordMeta::new(&record, &dir).unwrap();
    assert_eq!(meta.num_fields(), 18);
    assert_eq!(meta.record_type(), RecordType::Authority);
    assert_eq!(meta.get_field_type(4), 24);
    assert_eq!(meta.get_field_offset(4), 76);
    assert_eq!(meta.get_field_length(4), 50);
    assert_eq!(meta.get_field_type(0), 1);
    assert_eq!(meta.get_field_offset(0), 1);
    assert_eq!(meta.get_field_length(0), 9);
    let payload = &STR[24 + 216..];
    assert_eq!(meta.get_field(0, payload).data, b"040000028");
    assert_eq!(meta.get_field(1, payload).data, b"DE-101");
    let parsed = ParsedRecord::new(&record).unwrap();
    assert_eq!(parsed.record_type(), Ok(RecordType::Authority));
    assert_eq!(parsed.get_field(1).data, b"DE-101");
    assert_eq!(parsed.get_field(1).field_type, 3);
    assert_eq!(parsed.get_field(17).utf8_data(), LAST_FIELD);
    assert_eq!(parsed.field_iter_vec(&[1]).err(), Some(MarcError::NotImplemented));
    let mut out = vec![7u8];
    assert_eq!(parsed.to_marc21(&mut out), Err(MarcError::NotImplemented));
    assert_eq!(out, vec![7u8]);
}

#[test]
fn parsed_record_is_built_field_by_field() {
    let mut parsed = ParsedRecord::empty_new(RecordType::Authority);
    assert_eq!(parsed.num_fields(), 0);
    assert_eq!(parsed.record_type(), Ok(RecordType::Authority));
    parsed.add_field(1, b"040000028");
    parsed.add_field(35, b"  \x1fa(DE-101)040000028");
    parsed.add_field(35, b"");
    parsed.add_field(40, b"xyz");
    assert_eq!(parsed.num_fields(), 4);
    assert_eq!(parsed.get_field(0).data, b"040000028");
    assert_eq!(parsed.get_field(1).data, b"  \x1fa(DE-101)040000028");
    assert_eq!(parsed.get_field(2).data, b"");
    assert_eq!(parsed.get_field(3).data, b"xyz");
    assert_eq!(parsed.get_field(3).field_type, 40);
    assert_eq!(tags(&parsed.field_iter(Some(35)).unwrap()), vec![35, 35]);
    assert_eq!(tags(&parsed.field_iter(None).unwrap()), vec![1, 35, 35, 40]);
    let mut meta = RecordMeta::empty_new(RecordType::Authority);
    meta.add_field(5, 0, 3);
    meta.add_field(6, 3, 4);
    assert_eq!(meta.num_fields(), 2);
    assert_eq!(meta.get_field_offset(1), 3);
    assert_eq!(meta.get_field(1, b"abcdefg").data, b"defg");
}

#[test]
fn owned_record_encodes_its_fields() {
    let mut record = OwnedRecord::new();
    assert_eq!(record.header, [0u8; 24]);
    assert_eq!(record.record_type(), Err(MarcError::NotImplemented));
    record.add_field(owned_field(1, b"abc"));
    record.add_field(owned_field(245, b"10\x1faTitle"));
    // adding a field leaves the leader alone
    assert_eq!(record.header, [0u8; 24]);
    assert_eq!(record.field_types, vec![1, 245]);
    assert_eq!(record.field_data, vec![b"abc".to_vec(), b"10\x1faTitle".to_vec()]);
    let mut out = b"<".to_vec();
    record.to_marc21(&mut out).unwrap();
    let mut expected = b"<00064".to_vec();
    expected.extend_from_slice(&[0u8; 19]);
    expected.extend_from_slice(b"001000400000245001000004\x1eabc\x1e10\x1faTitle\x1e\x1d");
    assert_eq!(out, expected);
    assert_eq!(out.len() - 1, 64);
}

#[test]
fn encoded_directory_is_cumulative() {
    let mut record = OwnedRecord::new();
    let contents: [&[u8]; 4] = [b"one", b"", b"three", b"four \x1e four"];
    for (i, c) in contents.iter().enumerate() {
        record.add_field(owned_field(10 * i + 7, c));
    }
    let mut out = Vec::new();
    record.to_marc21(&mut out).unwrap();
    let decoded = record_of(&out);
    assert_eq!(decoded.header().record_length(), out.len());
    let dir = decoded.directory().unwrap();
    assert_eq!(dir.num_entries(), 4);
    let mut sum = 0;
    for i in 0..4 {
        let entry = dir.get_entry(i);
        assert_eq!(entry.start(), sum);
        assert_eq!(entry.len(), contents[i].len() + 1);
        assert_eq!(entry.entry_type(), 10 * i + 7);
        sum += entry.len();
    }
    let fields = decoded.field_iter(None).unwrap();
    for i in 0..4 {
        assert_eq!(fields[i].data, contents[i]);
    }
}

#[test]
fn owned_record_reports_numbers_that_do_not_fit() {
    let mut record = OwnedRecord::new();
    record.add_field(owned_field(1000, b"abc"));
    let mut out = b"kept".to_vec();
    assert_eq!(record.to_marc21(&mut out), Err(MarcError::FieldOverflow));
    assert_eq!(out, b"kept");
    let mut record = OwnedRecord::new();
    record.add_field(owned_field(999, &[b'x'; 9998]));
    assert_eq!(record.to_marc21(&mut out), Ok(()));
    assert_eq!(out.len(), 4 + 24 + 12 + 1 + 9999 + 1);
    let mut record = OwnedRecord::new();
    record.add_field(owned_field(999, &[b'x'; 9999]));
    assert_eq!(record.to_marc21(&mut out), Err(MarcError::FieldOverflow));
    // eleven fields of 9,000 bytes are more than five digits can count
    let mut record = OwnedRecord::new();
    for _ in 0..11 {
        record.add_field(owned_field(5, &[b'x'; 9000]));
    }
    let mut out = Vec::new();
    assert_eq!(record.to_marc21(&mut out), Ok(()));
    assert_eq!(out.len(), 24 + 11 * 12 + 1 + 11 * 9001 + 1);
    assert_eq!(&out[..5], b"99169");
    record.add_field(owned_field(5, &[b'x'; 816]));
    out.clear();
    assert_eq!(record.to_marc21(&mut out), Ok(()));
    assert_eq!(&out[..5], b"99998");
    record.add_field(owned_field(5, b""));
    assert_eq!(record.to_marc21(&mut out), Err(MarcError::FieldOverflow));
    let fields = vec![RecordField { field_type: 1, data: b"" }];
    assert_eq!(record.add_field_from_iter(&fields), Err(MarcError::FieldOverflow));
    assert_eq!(record.field_types.len(), 14);
    assert_eq!(record.header, [0u8; 24]);
}

#[test]
fn adding_fields_from_a_walk_updates_the_leader() {
    let source = fixture_record();
    let mut record = OwnedRecord::new();
    let fields = source.field_iter(Some(35)).unwrap();
    assert_eq!(record.add_field_from_iter(&fields), Ok(()));
    assert_eq!(record.field_types, vec![35, 35, 35]);
    // 24 + 3 * 12 + 1 + 21 + 21 + 28 + 3 + 1
    assert_eq!(&record.header[..5], b"00135");
    assert_eq!(&record.header[5..], &[0u8; 19]);
    let mut out = Vec::new();
    record.to_marc21(&mut out).unwrap();
    assert_eq!(out.len(), 135);
    assert_eq!(&out[..24], &record.header);
}

#[test]
fn field_content_helpers() {
    assert!(!RecordField::is_data_field_type(0));
    assert!(!RecordField::is_data_field_type(9));
    assert!(RecordField::is_data_field_type(10));
    assert!(RecordField::is_data_field_type(913));
    let control = RecordField { field_type: 1, data: b"040000028" };
    assert!(!control.has_subfields());
    assert_eq!(control.indicator(0), None);
    assert_eq!(control.indicator(1), None);
    assert_eq!(control.utf8_data(), "040000028");
    let data = RecordField { field_type: 35, data: b"1 \x1fa(DE-101)040000028" };
    assert!(data.has_subfields());
    assert_eq!(data.indicator(0), Some(b'1'));
    assert_eq!(data.indicator(1), Some(b' '));
    let short = RecordField { field_type: 35, data: b"\x1f" };
    assert_eq!(short.indicator(0), Some(0x1f));
    assert_eq!(short.indicator(1), None);
    let owned = data.to_owned();
    assert_eq!(owned.field_type, 35);
    assert_eq!(owned.data, b"1 \x1fa(DE-101)040000028");
    let umlaut = RecordField { field_type: 150, data: "  \u{1f}aK\u{f6}ln".as_bytes() };
    assert_eq!(umlaut.utf8_data(), "  \u{1f}aK\u{f6}ln");
}

#[test]
fn subfields_are_split_at_the_separator() {
    let field = RecordField { field_type: 35, data: b"  \x1fa(DE-101)04\x1f9v:zg" };
    let mut it = field.subfield_iter();
    assert_eq!(it.next().unwrap().utf8_data(), "  ");
    assert_eq!(it.next().unwrap().utf8_data(), "a(DE-101)04");
    assert_eq!(it.next().unwrap().utf8_data(), "9v:zg");
    assert!(it.next().is_none());
    assert!(it.next().is_none());
    // no empty subfield behind a separator at the end
    let field = RecordField { field_type: 35, data: b"ab\x1f\x1fcd\x1f" };
    let mut it = field.subfield_iter();
    assert_eq!(it.next().unwrap().utf8_data(), "ab");
    assert_eq!(it.next().unwrap().utf8_data(), "");
    assert_eq!(it.next().unwrap().utf8_data(), "cd");
    assert!(it.next().is_none());
    let field = RecordField { field_type: 1, data: b"040000028" };
    let mut it = field.subfield_iter();
    assert_eq!(it.next().unwrap().utf8_data(), "040000028");
    assert!(it.next().is_none());
    let field = RecordField { field_type: 1, data: b"" };
    assert!(field.subfield_iter().next().is_none());
}

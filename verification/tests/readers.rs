use marc21::{
    AdvanceStep, BufferedMarcReader, MarcError, MarcReader, MarcRecord, MarcRecordBatch, Record,
};
use std::io::{BufReader, Cursor, Read, Seek, SeekFrom};

const STR: &[u8] = b"00827nz  a2200241nc 4500\
001001000000\
003000700010\
005001700017\
008004100034\
024005100075\
035002200126\
035002200148\
035002900170\
040004000199\
042000900239\
065001600248\
075001400264\
079000900278\
083004200287\
150001200329\
550019200341\
670001200533\
913004000545\
\x1e040000028\x1eDE-101\x1e20100106125650.0\x1e880701n||azznnbabn           | ana    |c\x1e7 \x1fa4000002-3\x1f0http://d-nb.info/gnd/4000002-3\x1f2gnd\x1e  \x1fa(DE-101)040000028\x1e  \x1fa(DE-588)4000002-3\x1e  \x1fz(DE-588c)4000002-3\x1f9v:zg\x1e  \x1faDE-101\x1fcDE-101\x1f9r:DE-101\x1fbger\x1fd0832\x1e  \x1fagnd1\x1e  \x1fa31.9b\x1f2sswd\x1e  \x1fbs\x1f2gndgen\x1e  \x1fag\x1fqs\x1e04\x1fa621.381537\x1f9d:2\x1f9t:2010-01-06\x1f223/ger\x1e  \x1faA 302 D\x1e  \x1f0(DE-101)040272427\x1f0(DE-588)4027242-4\x1f0https://d-nb.info/gnd/4027242-4\x1faIntegrierte Schaltung\x1f4obal\x1f4https://d-nb.info/standards/elementset/gnd#broaderTermGeneral\x1fwr\x1fiOberbegriff allgemein\x1e  \x1faVorlage\x1e  \x1fSswd\x1fis\x1faA 302 D\x1f0(DE-588c)4000002-3\x1e\x1d";

fn to_io(e: MarcError) -> std::io::Error {
    std::io::Error::new(std::io::ErrorKind::InvalidData, format!("{:?}", e))
}

/// Runs one advance of the reader against a byte source.
fn advance<R: Read>(reader: &mut BufferedMarcReader, source: &mut R) -> std::io::Result<bool> {
    let mut step = reader.advance().map_err(to_io)?;
    loop {
        match step {
            AdvanceStep::Done(available) => return Ok(available),
            AdvanceStep::Read(wanted) => {
                let mut bytes = vec![0u8; wanted];
                let read = source.read(&mut bytes)?;
                step = reader.fill(&bytes[..read]).map_err(to_io)?;
            }
        }
    }
}

/// Reads one block from a byte source and cuts it into records.
fn read_batch<'s, R: Read + Seek>(
    source: &mut R,
    mem: &'s mut [u8],
) -> std::io::Result<Option<MarcRecordBatch<'s>>> {
    let start_pos = source.stream_position()?;
    let read = source.read(mem)?;
    let mut reader = MarcReader::new(start_pos);
    let mem: &'s [u8] = mem;
    let batch = reader.read_batch(mem, read).map_err(to_io)?;
    if batch.is_some() {
        source.seek(SeekFrom::Start(reader.position()))?;
    }
    Ok(batch)
}

const ENTRY_TYPES: [usize; 18] =
    [1, 3, 5, 8, 24, 35, 35, 35, 40, 42, 65, 75, 79, 83, 150, 550, 670, 913];
const ENTRY_LENGTHS: [usize; 18] =
    [10, 7, 17, 41, 51, 22, 22, 29, 40, 9, 16, 14, 9, 42, 12, 192, 12, 40];
const ENTRY_STARTS: [usize; 18] =
    [0, 10, 17, 34, 75, 126, 148, 170, 199, 239, 248, 264, 278, 287, 329, 341, 533, 545];

#[test]
fn read_one_buffered() {
    let mut big_str = Vec::new();
    for _ in 0..2 {
        big_str.extend_from_slice(STR);
    }
    let len = big_str.len();
    big_str[len - 4] = '$' as u8;
    let c = Cursor::new(big_str);
    let mut breader = BufReader::new(c);
    let mut mreader = BufferedMarcReader::new();
    assert!(!mreader.is_eof());
    for i in 0..2 {
        let success = advance(&mut mreader, &mut breader).expect("io error");
        assert!(!mreader.is_eof());
        assert!(success);
        let record = mreader.get().unwrap();
        assert_eq!(record.record_length(), 827);
        let dir = record.directory().unwrap();
        assert_eq!(dir.num_entries(), 18);
        for i in 0..18 {
            let entry = dir.get_entry(i);
            assert_eq!(entry.entry_type(), ENTRY_TYPES[i], "i {}", i);
            assert_eq!(entry.len(), ENTRY_LENGTHS[i], "i {}", i);
            assert_eq!(entry.start(), ENTRY_STARTS[i], "i {}", i);
        }
        let fields = record.field_iter(None).unwrap();
        let first = fields.first().expect("not enough elements");
        let last = fields.last().expect("not enough elements");
        assert_eq!(first.utf8_data(), "040000028");
        if i == 0 {
            assert_eq!(
                last.utf8_data(),
                "  \x1fSswd\x1fis\x1faA 302 D\x1f0(DE-588c)4000002-3"
            );
        } else {
            assert_eq!(
                last.utf8_data(),
                "  \x1fSswd\x1fis\x1faA 302 D\x1f0(DE-588c)4000002$3"
            );
        }
    }
    let success = advance(&mut mreader, &mut breader).expect("io error");
    assert!(!success);

    assert!(mreader.is_eof());
}

#[test]
fn read_one() {
    let c = Cursor::new(STR);
    let mut breader = BufReader::new(c);
    let mut v: Vec<u8> = Vec::new();
    v.resize(10000, 0);
    let r = read_batch(&mut breader, &mut v);
    match r {
        Ok(Some(batch)) => {
            assert_eq!(batch.records.len(), 1);
            let record = &batch.records[0];
            assert_eq!(record.record_length(), 827);
            let dir = record.directory().unwrap();
            assert_eq!(dir.num_entries(), 18);
            for i in 0..18 {
                let entry = dir.get_entry(i);
                assert_eq!(entry.entry_type(), ENTRY_TYPES[i], "i {}", i);
                assert_eq!(entry.len(), ENTRY_LENGTHS[i], "i {}", i);
                assert_eq!(entry.start(), ENTRY_STARTS[i], "i {}", i);
            }
            let fields = record.field_iter(None).unwrap();
            let first = fields.first().expect("not enough elements");
            let last = fields.last().expect("not enough elements");
            assert_eq!(first.utf8_data(), "040000028");
            assert_eq!(
                last.utf8_data(),
                "  \x1fSswd\x1fis\x1faA 302 D\x1f0(DE-588c)4000002-3"
            );
        }
        _ => panic!("something bad"),
    }
}

#[test]
fn marcrecord_conv_back() {
    let c = Cursor::new(STR);
    let mut breader = BufReader::new(c);
    let mut v: Vec<u8> = Vec::new();
    v.resize(10000, 0);
    let r = read_batch(&mut breader, &mut v);
    match r {
        Ok(Some(batch)) => {
            assert_eq!(batch.records.len(), 1);
            let record = &batch.records[0];
            let mut result: Vec<u8> = Vec::new();
            record.to_marc21(&mut result).unwrap();
            assert_eq!(result, STR);
        }
        _ => panic!("something bad"),
    }
}

#[test]
fn ownedrecord_conv_back() {
    let c = Cursor::new(STR);
    let mut breader = BufReader::new(c);
    let mut v: Vec<u8> = Vec::new();
    v.resize(10000, 0);
    let r = read_batch(&mut breader, &mut v);
    match r {
        Ok(Some(batch)) => {
            assert_eq!(batch.records.len(), 1);
            let record: &MarcRecord<'_> = &batch.records[0];
            let mut result: Vec<u8> = Vec::new();
            record.to_marc21(&mut result).unwrap();
            assert_eq!(result, STR);
            let owned_record = (*record).to_owned().unwrap();
            assert_eq!(owned_record.field_iter(None).unwrap().len(), 18);
            result.clear();
            owned_record.to_marc21(&mut result).expect("not ok");
            assert_eq!(std::str::from_utf8(&result), std::str::from_utf8(STR));
        }
        _ => panic!("something bad"),
    }
}

/// Three records and a few stray bytes: three advances succeed, then the
/// stream is at its end and stays there.
#[test]
fn buffered_reader_stops_after_the_last_record() {
    let mut stream = Vec::new();
    for _ in 0..3 {
        stream.extend_from_slice(STR);
    }
    stream.extend_from_slice(b"0012");
    let mut source = Cursor::new(stream);
    let mut reader = BufferedMarcReader::new();
    let mut count = 0;
    while advance(&mut reader, &mut source).unwrap() {
        let record = reader.get().unwrap();
        let mut bytes = Vec::new();
        record.to_marc21(&mut bytes).unwrap();
        assert_eq!(bytes, STR);
        count += 1;
        assert!(count <= 3);
    }
    assert_eq!(count, 3);
    assert!(reader.is_eof());
    assert!(reader.get().is_none());
    assert!(reader.get_header().is_none());
    assert!(!advance(&mut reader, &mut source).unwrap());
    assert!(reader.is_eof());
}

#[test]
fn buffered_reader_on_an_empty_stream() {
    let mut source = Cursor::new(Vec::new());
    let mut reader = BufferedMarcReader::new();
    assert!(reader.get_header().is_none());
    assert!(!advance(&mut reader, &mut source).unwrap());
    assert!(reader.is_eof());
}

#[test]
fn buffered_reader_asks_for_the_leader_then_for_the_rest() {
    let mut reader = BufferedMarcReader::new();
    assert_eq!(reader.advance(), Ok(AdvanceStep::Read(24)));
    assert_eq!(reader.fill(&STR[..24]), Ok(AdvanceStep::Read(803)));
    assert_eq!(reader.get_header().unwrap().record_length(), 827);
    assert!(reader.get().is_none());
    assert_eq!(reader.fill(&STR[24..]), Ok(AdvanceStep::Done(true)));
    assert!(!reader.is_eof());
    assert_eq!(reader.get().unwrap().record_length(), 827);
    // the record is consumed, and a new leader is asked for
    assert_eq!(reader.advance(), Ok(AdvanceStep::Read(24)));
    assert!(reader.get().is_none());
    assert_eq!(reader.fill(&[]), Ok(AdvanceStep::Done(false)));
    assert!(reader.is_eof());
}

#[test]
fn buffered_reader_with_a_short_record() {
    let mut reader = BufferedMarcReader::new();
    assert_eq!(reader.advance(), Ok(AdvanceStep::Read(24)));
    assert_eq!(reader.fill(&STR[..24]), Ok(AdvanceStep::Read(803)));
    // the source delivers less than the record needs
    assert_eq!(reader.fill(&STR[24..500]), Ok(AdvanceStep::Done(false)));
    assert!(reader.is_eof());
    assert!(reader.get().is_none());
    // the next advance asks for what is missing
    assert_eq!(reader.advance(), Ok(AdvanceStep::Read(327)));
    assert_eq!(reader.fill(&STR[500..]), Ok(AdvanceStep::Done(true)));
    assert!(!reader.is_eof());
    assert_eq!(reader.get().unwrap().data(), &STR[24..]);
}

#[test]
fn buffered_reader_rejects_a_leader_shorter_than_itself() {
    let mut reader = BufferedMarcReader::new();
    assert_eq!(reader.advance(), Ok(AdvanceStep::Read(24)));
    assert_eq!(reader.fill(b"00023nz  a2200241nc 4500"), Err(MarcError::Malformed));
    assert!(reader.get().is_none());
    assert_eq!(reader.advance(), Err(MarcError::Malformed));
}

#[test]
fn buffered_reader_takes_two_records_from_one_window() {
    let mut reader = BufferedMarcReader::new();
    assert_eq!(reader.advance(), Ok(AdvanceStep::Read(24)));
    assert_eq!(reader.fill(&STR[..24]), Ok(AdvanceStep::Read(803)));
    assert_eq!(reader.fill(&STR[24..]), Ok(AdvanceStep::Done(true)));
    let mut source = Cursor::new(STR.to_vec());
    assert!(advance(&mut reader, &mut source).unwrap());
    assert_eq!(reader.get().unwrap().data(), &STR[24..]);
    assert!(!advance(&mut reader, &mut source).unwrap());
}

/// A block that holds one record and part of the next yields one record,
/// and the next block starts behind it.
#[test]
fn batch_reader_stops_at_the_last_whole_record() {
    let mut stream = Vec::new();
    for _ in 0..3 {
        stream.extend_from_slice(STR);
    }
    let mut source = Cursor::new(stream);
    let mut block = vec![0u8; 1000];
    for i in 0..3u64 {
        let batch = read_batch(&mut source, &mut block).unwrap().unwrap();
        assert_eq!(batch.records.len(), 1);
        assert_eq!(batch.records[0].data(), &STR[24..]);
        assert_eq!(source.stream_position().unwrap(), 827 * (i + 1));
    }
    assert!(read_batch(&mut source, &mut block).unwrap().is_none());
}

#[test]
fn batch_reader_takes_all_whole_records_of_a_block() {
    let mut stream = Vec::new();
    for _ in 0..3 {
        stream.extend_from_slice(STR);
    }
    let mut reader = MarcReader::new(100);
    let batch = reader.read_batch(&stream, 2000).unwrap().unwrap();
    assert_eq!(batch.records.len(), 2);
    assert_eq!(reader.position(), 100 + 1654);
    let mut reader = MarcReader::new(0);
    let batch = reader.read_batch(&stream, stream.len()).unwrap().unwrap();
    assert_eq!(batch.records.len(), 3);
    assert_eq!(reader.position(), 2481);
}

#[test]
fn batch_reader_reports_a_block_without_a_whole_record() {
    let mut reader = MarcReader::new(7);
    assert_eq!(reader.read_batch(STR, 826).err(), Some(MarcError::NoProgress));
    assert_eq!(reader.position(), 7);
    assert_eq!(reader.read_batch(STR, 10).err(), Some(MarcError::NoProgress));
    let mut source = Cursor::new(STR.to_vec());
    let mut block = vec![0u8; 100];
    let e = read_batch(&mut source, &mut block).err().unwrap();
    assert_eq!(e.kind(), std::io::ErrorKind::InvalidData);
}

#[test]
fn batch_reader_at_the_end_of_the_stream() {
    let mut reader = MarcReader::new(827);
    assert!(reader.read_batch(STR, 0).unwrap().is_none());
    assert_eq!(reader.position(), 827);
}

#[test]
fn batch_reader_rejects_a_leader_shorter_than_itself() {
    let mut stream = STR.to_vec();
    stream.extend_from_slice(b"00010nz  a2200241nc 4500");
    let mut reader = MarcReader::new(0);
    assert_eq!(reader.read_batch(&stream, stream.len()).err(), Some(MarcError::Malformed));
    assert_eq!(reader.position(), 0);
}

#[test]
fn batch_reader_takes_a_record_that_ends_with_the_block() {
    let mut reader = MarcReader::new(0);
    let block = b"00024nz  a2200241nc 4500";
    let batch = reader.read_batch(block, 24).unwrap().unwrap();
    assert_eq!(batch.records.len(), 1);
    assert_eq!(batch.records[0].record_length(), 24);
    assert_eq!(reader.position(), 24);
}

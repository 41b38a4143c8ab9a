use storagekv::error::Error;
use storagekv::memtable::MemTable;
use storagekv::record::{Kind, Record};
use storagekv::sstable::{max_seq, parse_footer, scan_block, write_from_memtable, write_records, SSTable};
use storagekv::wal::Wal;

fn memtable_with(pairs: &[(&str, Option<&str>)]) -> MemTable {
    let mut m = MemTable::new();
    let mut seq = 1u64;
    for (k, v) in pairs {
        let rec = match v {
            Some(val) => Record { seq, kind: Kind::Put, key: k.as_bytes().to_vec(), value: val.as_bytes().to_vec() },
            None => Record { seq, kind: Kind::Tombstone, key: k.as_bytes().to_vec(), value: Vec::new() },
        };
        m.apply(rec);
        seq += 1;
    }
    m
}

#[test]
fn write_read_basic() {
    let m = memtable_with(&[("apple", Some("red")), ("banana", Some("yellow")), ("cherry", Some("dark"))]);
    let file = write_from_memtable(&m);
    let sst = SSTable::open(1, &file).unwrap();
    assert_eq!(sst.get(&file, b"apple").unwrap().unwrap().value, b"red");
    assert_eq!(sst.get(&file, b"banana").unwrap().unwrap().value, b"yellow");
    assert_eq!(sst.get(&file, b"cherry").unwrap().unwrap().value, b"dark");
    assert!(sst.get(&file, b"missing").unwrap().is_none());
}

#[test]
fn tombstone_is_stored() {
    let m = memtable_with(&[("a", Some("1")), ("b", None), ("c", Some("3"))]);
    let file = write_from_memtable(&m);
    let sst = SSTable::open(1, &file).unwrap();
    let b = sst.get(&file, b"b").unwrap().unwrap();
    assert_eq!(b.kind, Kind::Tombstone);
    assert!(sst.get(&file, b"zzz").unwrap().is_none());
}

fn many() -> Vec<u8> {
    let mut m = MemTable::new();
    for i in 0..50u64 {
        m.apply(Record {
            seq: i + 1,
            kind: Kind::Put,
            key: format!("key{:04}", i).into_bytes(),
            value: format!("val{}", i).into_bytes(),
        });
    }
    write_from_memtable(&m)
}

#[test]
fn many_keys_exercise_sparse_index() {
    let file = many();
    let sst = SSTable::open(1, &file).unwrap();
    for i in [0u64, 1, 15, 16, 17, 31, 32, 48, 49] {
        let k = format!("key{:04}", i);
        assert_eq!(sst.get(&file, k.as_bytes()).unwrap().unwrap().value, format!("val{}", i).into_bytes());
    }
    assert!(sst.get(&file, b"key9999").unwrap().is_none());
    assert!(sst.get(&file, b"aaaa").unwrap().is_none());
}

#[test]
fn blocks_are_found_without_the_whole_file() {
    let file = many();
    let n = file.len();
    let footer = parse_footer(n as u64, &file[n - 28..]).unwrap();
    let index = &file[footer.index_offset as usize..(footer.index_offset + footer.index_len) as usize];
    let sst = SSTable::from_index(7, footer, index).unwrap();
    assert_eq!(sst.number(), 7);
    assert_eq!(sst.index_offset(), footer.index_offset);
    let (start, end) = sst.block_range(b"key0017").unwrap().unwrap();
    let block = file[start as usize..end as usize].to_vec();
    assert_eq!(scan_block(block.clone(), b"key0017").unwrap().unwrap().value, b"val17");
    assert_eq!(scan_block(block, b"key0018x").unwrap(), None);
    assert_eq!(sst.block_range(b"a").unwrap(), None);
    let frame = 25 + 7;
    assert_eq!(start, 10 * (frame + 4) + 6 * (frame + 5));
    assert_eq!(end - start, 16 * (frame + 5));
}

#[test]
fn data_holds_all_records_in_order() {
    let file = many();
    let sst = SSTable::open(1, &file).unwrap();
    let (records, wal) = Wal::replay(file[..sst.index_offset() as usize].to_vec()).unwrap();
    assert_eq!(records.len(), 50);
    assert_eq!(records[49].key, b"key0049");
    assert_eq!(max_seq(&records), 50);
    assert_eq!(wal.end(), sst.index_offset());
}

#[test]
fn exact_bytes_of_a_table() {
    let rec = Record { seq: 3, kind: Kind::Put, key: b"k".to_vec(), value: b"v".to_vec() };
    let mut expected = rec.encode();
    let data_len = expected.len() as u64;
    expected.extend_from_slice(&1u32.to_le_bytes());
    expected.extend_from_slice(b"k");
    expected.extend_from_slice(&0u64.to_le_bytes());
    expected.extend_from_slice(&data_len.to_le_bytes());
    expected.extend_from_slice(&13u64.to_le_bytes());
    expected.extend_from_slice(&1u64.to_le_bytes());
    expected.extend_from_slice(&0x5353_5442u32.to_le_bytes());
    assert_eq!(write_records(&[rec]), expected);
}

#[test]
fn empty_table() {
    let file = write_records(&[]);
    assert_eq!(file.len(), 28);
    assert_eq!(max_seq(&[]), 0);
    let sst = SSTable::open(1, &file).unwrap();
    assert_eq!(sst.get(&file, b"a"), Ok(None));
}

#[test]
fn bad_tables_are_refused() {
    let short = SSTable::open(1, b"tiny");
    assert!(matches!(short, Err(Error::Corruption(ref t)) if t == "sstable smaller than footer"));
    let mut file = many();
    let n = file.len();
    file[n - 1] ^= 1;
    let magic = SSTable::open(1, &file);
    assert!(matches!(magic, Err(Error::Corruption(ref t)) if t == "bad sstable magic"));
    file[n - 1] ^= 1;
    file[n - 20] = 0xFF;
    file[n - 14] = 0xFF;
    assert!(matches!(SSTable::open(1, &file), Err(Error::UnexpectedEof)));
}

#[test]
fn offsets_out_of_order_are_malformed() {
    let mut index = Vec::new();
    for (key, offset) in [(b"a", 100u64), (b"b", 10)] {
        index.extend_from_slice(&1u32.to_le_bytes());
        index.extend_from_slice(key);
        index.extend_from_slice(&offset.to_le_bytes());
    }
    let footer = storagekv::sstable::Footer { index_offset: 200, index_len: 26 };
    let sst = SSTable::from_index(1, footer, &index).unwrap();
    assert_eq!(sst.block_range(b"a"), Err(Error::Malformed));
    assert_eq!(sst.block_range(b"b"), Ok(Some((10, 200))));
    index.truncate(20);
    assert!(matches!(SSTable::from_index(1, footer, &index), Err(Error::UnexpectedEof)));
}

use chum_world::dgc::{DgcArchive, DgcChunk, DgcFile};

fn header() -> String {
    "h".repeat(256)
}

fn file_of(len: usize, tag: i32) -> DgcFile {
    DgcFile { data: vec![0xAB; len], type_id: tag, id1: tag, id2: tag }
}

#[test]
fn chunk_accounting() {
    let mut c = DgcChunk::new();
    assert_eq!(c.get_size(), 4);
    assert_eq!(c.get_num_files(), 0);
    assert_eq!(c.data_len(), 0);
    c.add_file(file_of(100, 1));
    assert_eq!(c.get_size(), 4 + 116);
    assert_eq!(c.get_num_files(), 1);
    assert_eq!(c.data_len(), 100);
    c.add_file(file_of(50, 2));
    assert_eq!(c.get_size(), 4 + 116 + 66);
    assert_eq!(c.get_num_files(), 2);
    assert_eq!(c.data_len(), 150);
}

#[test]
fn file_size_counts_header() {
    let f = file_of(100, 7);
    assert_eq!(f.get_size(), 116);
}

#[test]
fn new_archive_rounds_requested_size() {
    let a = DgcArchive::new(&header(), 0);
    assert_eq!(a.chunk_size, 2048);
    assert_eq!(a.data.len(), 0);
    let b = DgcArchive::new(&header(), 5016);
    assert_eq!(b.chunk_size, 6144);
}

#[test]
fn first_fit_places_records() {
    // the concrete scenario: payloads 100, 2030 and 50 under a 2048 ceiling
    let mut a = DgcArchive::new(&header(), 0);
    a.add_file(file_of(100, 1));
    a.add_file(file_of(2030, 2));
    a.add_file(file_of(50, 3));
    // the 2046-byte record gets a chunk of its own; 116 and 66 share one
    assert_eq!(a.data.len(), 2);
    assert_eq!(a.data[0].get_num_files(), 2);
    assert_eq!(a.data[0].data[0].data.len(), 100);
    assert_eq!(a.data[0].data[1].data.len(), 50);
    assert_eq!(a.data[1].get_num_files(), 1);
    assert_eq!(a.data[1].data[0].data.len(), 2030);
}

#[test]
fn oversized_record_triggers_redistribution() {
    let mut a = DgcArchive::new(&header(), 0);
    a.add_file(file_of(100, 1));
    a.add_file(file_of(2030, 2));
    a.add_file(file_of(50, 3));
    // encoded size 5016 exceeds 2048: chunk size grows to 6144 and every
    // record is repacked by decreasing size
    a.add_file(file_of(5000, 4));
    assert_eq!(a.chunk_size, 6144);
    let mut lens: Vec<usize> = a.iter_files().iter().map(|f| f.data.len()).collect();
    lens.sort();
    assert_eq!(lens, vec![50, 100, 2030, 5000]);
    // each record landed in exactly one chunk, no chunk over the ceiling
    let total: usize = a.data.iter().map(|c| c.get_num_files()).sum();
    assert_eq!(total, 4);
    for c in &a.data {
        assert!(c.get_size() <= a.chunk_size);
    }
    // the prior records, sorted decreasing, share one chunk; the new record
    // is placed afterwards by first fit and needs a chunk of its own
    assert_eq!(a.data.len(), 2);
    assert_eq!(a.data[0].get_num_files(), 3);
    assert_eq!(a.data[0].data[0].data.len(), 2030);
    assert_eq!(a.data[0].data[1].data.len(), 100);
    assert_eq!(a.data[0].data[2].data.len(), 50);
    assert_eq!(a.data[1].data[0].data.len(), 5000);
}

#[test]
fn growth_keeps_every_record() {
    let mut a = DgcArchive::new(&header(), 0);
    for i in 0..10 {
        a.add_file(file_of(100 + i, i as i32));
    }
    a.add_file(file_of(100_000, 99));
    let mut lens: Vec<usize> = a.iter_files().iter().map(|f| f.data.len()).collect();
    assert_eq!(lens.len(), 11);
    lens.sort();
    let mut expected: Vec<usize> = (0..10).map(|i| 100 + i).collect();
    expected.push(100_000);
    assert_eq!(lens, expected);
    for c in &a.data {
        assert!(c.get_size() <= a.chunk_size);
    }
}

#[test]
fn ceiling_holds_under_many_adds() {
    let mut a = DgcArchive::new(&header(), 0);
    for i in 0..50 {
        a.add_file(file_of((i * 37) % 1500, i as i32));
    }
    for c in &a.data {
        assert!(c.get_size() <= a.chunk_size);
    }
    assert_eq!(a.iter_files().len(), 50);
}

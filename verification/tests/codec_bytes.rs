use chum_world::codec::DgcError;
use chum_world::dgc::{DgcArchive, DgcFile};

fn header() -> String {
    "n".repeat(256)
}

fn file_of(data: Vec<u8>, type_id: i32, id1: i32, id2: i32) -> DgcFile {
    DgcFile { data, type_id, id1, id2 }
}

#[test]
fn encode_layout_is_exact() {
    let mut a = DgcArchive::new(&header(), 0);
    a.add_file(file_of(vec![1, 2, 3], 0x01020304, -1, 0x7F));
    let bytes = a.write_to();
    // header blob, chunk size, reserved region, one chunk
    assert_eq!(bytes.len(), 2048 + 2048);
    assert_eq!(&bytes[0..256], "n".repeat(256).as_bytes());
    assert_eq!(&bytes[256..260], &[0x00, 0x00, 0x08, 0x00]);
    assert!(bytes[260..2048].iter().all(|b| *b == 0));
    // record count
    assert_eq!(&bytes[2048..2052], &[0, 0, 0, 1]);
    // record: size 19, three ids, payload
    assert_eq!(&bytes[2052..2056], &[0, 0, 0, 19]);
    assert_eq!(&bytes[2056..2060], &[0x01, 0x02, 0x03, 0x04]);
    assert_eq!(&bytes[2060..2064], &[0xFF, 0xFF, 0xFF, 0xFF]);
    assert_eq!(&bytes[2064..2068], &[0x00, 0x00, 0x00, 0x7F]);
    assert_eq!(&bytes[2068..2071], &[1, 2, 3]);
    assert!(bytes[2071..4096].iter().all(|b| *b == 0));
}

#[test]
fn round_trip_preserves_everything() {
    let mut a = DgcArchive::new(&header(), 0);
    a.add_file(file_of(vec![9; 100], 1, 10, 100));
    a.add_file(file_of(vec![8; 2030], 2, 20, 200));
    a.add_file(file_of(vec![7; 50], 3, 30, 300));
    a.add_file(file_of(vec![6; 5000], 4, 40, 400));
    let bytes = a.write_to();
    let (b, warn) = DgcArchive::read_from(&bytes).unwrap();
    assert!(!warn);
    assert_eq!(b.header.legal_notice, a.header.legal_notice);
    assert_eq!(b.chunk_size, a.chunk_size);
    assert_eq!(b.data.len(), a.data.len());
    for (ca, cb) in a.data.iter().zip(b.data.iter()) {
        assert_eq!(ca.data.len(), cb.data.len());
        for (fa, fb) in ca.data.iter().zip(cb.data.iter()) {
            assert_eq!(fa.data, fb.data);
            assert_eq!(fa.type_id, fb.type_id);
            assert_eq!(fa.id1, fb.id1);
            assert_eq!(fa.id2, fb.id2);
        }
    }
}

#[test]
fn empty_archive_round_trip() {
    let a = DgcArchive::new(&header(), 0);
    let bytes = a.write_to();
    assert_eq!(bytes.len(), 2048);
    let (b, warn) = DgcArchive::read_from(&bytes).unwrap();
    assert!(!warn);
    assert_eq!(b.chunk_size, 2048);
    assert_eq!(b.data.len(), 0);
}

#[test]
fn truncated_header_is_rejected() {
    assert!(matches!(DgcArchive::read_from(&[]), Err(DgcError::TruncatedHeader)));
    assert!(matches!(DgcArchive::read_from(&[0u8; 259]), Err(DgcError::TruncatedHeader)));
}

#[test]
fn short_reserved_region_is_tolerated() {
    // a stream that ends inside the reserved region has no chunks
    let mut bytes = vec![0u8; 1000];
    bytes[256..260].copy_from_slice(&[0, 0, 0x08, 0]);
    let (a, warn) = DgcArchive::read_from(&bytes).unwrap();
    assert!(!warn);
    assert_eq!(a.chunk_size, 2048);
    assert_eq!(a.data.len(), 0);
}

#[test]
fn trailing_partial_window_warns_and_is_dropped() {
    let a = DgcArchive::new(&header(), 0);
    let mut bytes = a.write_to();
    bytes.extend_from_slice(&[0u8; 100]);
    let (b, warn) = DgcArchive::read_from(&bytes).unwrap();
    assert!(warn);
    assert_eq!(b.data.len(), 0);
}

#[test]
fn zero_chunk_size_has_no_windows() {
    let mut bytes = vec![0u8; 4096];
    // chunk size field left zero; everything past the header is dropped
    let (a, warn) = DgcArchive::read_from(&bytes).unwrap();
    assert!(warn);
    assert_eq!(a.chunk_size, 0);
    assert_eq!(a.data.len(), 0);
    bytes.truncate(2048);
    let (b, warn2) = DgcArchive::read_from(&bytes).unwrap();
    assert!(!warn2);
    assert_eq!(b.data.len(), 0);
}

#[test]
fn record_past_window_end_is_truncation() {
    let mut bytes = vec![0u8; 4096];
    bytes[256..260].copy_from_slice(&[0, 0, 0x08, 0]);
    // one record whose declared size overruns the window
    bytes[2048..2052].copy_from_slice(&[0, 0, 0, 1]);
    bytes[2052..2056].copy_from_slice(&[0, 0, 0x09, 0]);
    assert!(matches!(DgcArchive::read_from(&bytes), Err(DgcError::TruncatedRecord)));
}

#[test]
fn record_size_below_header_is_truncation() {
    let mut bytes = vec![0u8; 4096];
    bytes[256..260].copy_from_slice(&[0, 0, 0x08, 0]);
    bytes[2048..2052].copy_from_slice(&[0, 0, 0, 1]);
    // a record cannot be smaller than its own 16-byte header
    bytes[2052..2056].copy_from_slice(&[0, 0, 0, 15]);
    assert!(matches!(DgcArchive::read_from(&bytes), Err(DgcError::TruncatedRecord)));
}

#[test]
fn count_past_window_end_is_truncation() {
    let mut bytes = vec![0u8; 4096];
    bytes[256..260].copy_from_slice(&[0, 0, 0x08, 0]);
    // two records declared, none present
    bytes[2048..2052].copy_from_slice(&[0, 0, 0, 2]);
    bytes[2052..2056].copy_from_slice(&[0, 0, 0, 16]);
    assert!(matches!(DgcArchive::read_from(&bytes), Err(DgcError::TruncatedRecord)));
}

#[test]
fn padding_after_records_is_ignored() {
    let mut bytes = vec![0u8; 4096];
    bytes[256..260].copy_from_slice(&[0, 0, 0x08, 0]);
    bytes[2048..2052].copy_from_slice(&[0, 0, 0, 1]);
    bytes[2052..2056].copy_from_slice(&[0, 0, 0, 18]);
    bytes[2056..2060].copy_from_slice(&[0, 0, 0, 5]);
    bytes[2060..2064].copy_from_slice(&[0, 0, 0, 6]);
    bytes[2064..2068].copy_from_slice(&[0, 0, 0, 7]);
    bytes[2068] = 0xAA;
    bytes[2069] = 0xBB;
    let (a, warn) = DgcArchive::read_from(&bytes).unwrap();
    assert!(!warn);
    assert_eq!(a.data.len(), 1);
    assert_eq!(a.data[0].data.len(), 1);
    let f = &a.data[0].data[0];
    assert_eq!(f.type_id, 5);
    assert_eq!(f.id1, 6);
    assert_eq!(f.id2, 7);
    assert_eq!(f.data, vec![0xAA, 0xBB]);
}

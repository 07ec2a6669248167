use rustsql::common::error::ErrorCode;
use rustsql::v2::page::{
    decode_payload, empty_page, encode_payload_page, page_kind, MetaPage, PageId, PageKind,
    PAGE_SIZE,
};
use rustsql::v2::wal::{recover_frames, write_commit, write_frame};

#[test]
fn meta_page_roundtrips_through_bytes() {
    let meta = MetaPage {
        page_size: PAGE_SIZE as u32,
        page_count: 3,
        catalog_page_id: PageId(1),
        next_txn_id: 9,
    };

    let encoded = meta.encode();
    let decoded = MetaPage::decode(&encoded).unwrap();
    assert_eq!(decoded, meta);
}

#[test]
fn rejects_page_buffer_with_wrong_magic() {
    let mut bytes = [0_u8; PAGE_SIZE];
    bytes[..4].copy_from_slice(b"nope");
    let error = MetaPage::decode(&bytes).unwrap_err();
    assert!(error.message().contains("invalid storage_v2 page magic"));
}

#[test]
fn wal_recovery_replays_only_committed_transactions() {
    let mut wal = Vec::new();
    write_frame(&mut wal, 7, PageId(2), &[1_u8; PAGE_SIZE]).unwrap();
    write_commit(&mut wal, 7, 1).unwrap();
    write_frame(&mut wal, 8, PageId(3), &[2_u8; PAGE_SIZE]).unwrap();

    let recovered = recover_frames(&wal).unwrap();
    assert_eq!(recovered.len(), 1);
    assert_eq!(recovered[0].txn_id, 7);
    assert_eq!(recovered[0].page_id, PageId(2));
}

#[test]
fn meta_page_layout_is_little_endian() {
    let meta = MetaPage {
        page_size: 4096,
        page_count: 0x0102_0304,
        catalog_page_id: PageId(1),
        next_txn_id: 9,
    };
    let bytes = meta.encode();
    assert_eq!(bytes.len(), PAGE_SIZE);
    assert_eq!(&bytes[16..20], &[0, 16, 0, 0]);
    assert_eq!(&bytes[20..24], &[4, 3, 2, 1]);
}

#[test]
fn payload_pages_give_back_their_payload() {
    let page = encode_payload_page(PageKind::Catalog, b"hello").unwrap();
    assert_eq!(page.len(), PAGE_SIZE);
    assert_eq!(decode_payload(&page, PageKind::Catalog).unwrap(), b"hello".to_vec());
    assert_eq!(page_kind(&page).unwrap(), PageKind::Catalog);
}

#[test]
fn pages_of_another_kind_are_refused() {
    let page = empty_page(PageKind::Leaf);
    let error = decode_payload(&page, PageKind::Catalog).unwrap_err();
    assert_eq!(error.message(), "expected Catalog page but found Leaf");
    let error = MetaPage::decode(&page).unwrap_err();
    assert_eq!(error.message(), "storage_v2 meta page has wrong page kind");
}

#[test]
fn broken_pages_are_refused() {
    let short = decode_payload(&[0_u8; 10], PageKind::Leaf).unwrap_err();
    assert_eq!(short.message(), "storage_v2 page buffer must be exactly 4096 bytes");

    let too_long = encode_payload_page(PageKind::Leaf, &vec![0_u8; 4081]).unwrap_err();
    assert_eq!(too_long.message(), "payload of 4081 bytes exceeds page capacity 4080");
    assert!(encode_payload_page(PageKind::Leaf, &vec![0_u8; 4080]).is_ok());

    let unknown = PageKind::from_byte(9).unwrap_err();
    assert_eq!(unknown.code, ErrorCode::UnknownPageKind(9));
    assert_eq!(unknown.message(), "unknown storage_v2 page kind: 9");
}

#[test]
fn broken_logs_are_refused() {
    let mut log = Vec::new();
    let error = write_frame(&mut log, 1, PageId(1), &[0_u8; 3]).unwrap_err();
    assert_eq!(error.message(), "wal frames must contain exactly 4096 bytes");

    let error = recover_frames(&[77_u8; 40]).unwrap_err();
    assert_eq!(error.message(), "unknown storage_v2 wal record type: 77");
}

#[test]
fn a_torn_frame_ends_the_log() {
    let mut log = Vec::new();
    write_frame(&mut log, 7, PageId(2), &[1_u8; PAGE_SIZE]).unwrap();
    write_commit(&mut log, 7, 1).unwrap();
    let whole = log.len();
    write_frame(&mut log, 8, PageId(3), &[2_u8; PAGE_SIZE]).unwrap();
    write_commit(&mut log, 8, 1).unwrap();
    log.truncate(whole + 100);
    let recovered = recover_frames(&log).unwrap();
    assert_eq!(recovered.len(), 1);
    assert_eq!(recovered[0].page_bytes, vec![1_u8; PAGE_SIZE]);
}

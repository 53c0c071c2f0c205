use esp_idf_part::entry::{Entry, APP_TYPE, DATA_TYPE};
use esp_idf_part::error::Error;
use esp_idf_part::names::{subtype_code, subtype_keyword, type_code, type_keyword};
use esp_idf_part::table::Table;

fn entry(name: &str, ty: u8, subtype: u8, offset: u32, size: u32) -> Entry {
    Entry::new(name.to_string(), ty, subtype, offset, size, 0)
}

fn record(name: &str, ty: u8, subtype: u8, offset: u32, size: u32, flags: u32) -> Vec<u8> {
    let mut r = vec![0xAA, 0x50, ty, subtype];
    r.extend_from_slice(&offset.to_le_bytes());
    r.extend_from_slice(&size.to_le_bytes());
    let mut field = [0u8; 16];
    field[..name.len()].copy_from_slice(name.as_bytes());
    r.extend_from_slice(&field);
    r.extend_from_slice(&flags.to_le_bytes());
    r
}

fn three_records() -> Vec<u8> {
    let mut b = Vec::new();
    b.extend(record("nvs", 1, 2, 0x9000, 0x6000, 0));
    b.extend(record("phy_init", 1, 1, 0xf000, 0x1000, 0));
    b.extend(record("factory", 0, 0, 0x10000, 0x100000, 0));
    b
}

fn with_trailer(records: &[u8]) -> Vec<u8> {
    let mut b = records.to_vec();
    b.extend(vec![0xFF; 32]);
    b.extend([0xEB, 0xEB]);
    b.extend(vec![0xFF; 14]);
    b.extend(md5::compute(records).0);
    b
}

fn sample_table() -> Table {
    Table::new(vec![
        entry("nvs", DATA_TYPE, 0x02, 0x9000, 0x6000),
        entry("otadata", DATA_TYPE, 0x00, 0xf000, 0x2000),
        Entry::new("factory".to_string(), APP_TYPE, 0x00, 0x20000, 0x100000, 1),
        entry("ota_0", APP_TYPE, 0x10, 0x120000, 0x100000),
        entry("custom", 0x40, 0x07, 0x220000, 0x1000),
    ])
}

#[test]
fn three_records_decode_and_validate() {
    let b = with_trailer(&three_records());
    let t = Table::decode_binary(&b).unwrap();
    assert_eq!(t.len(), 3);
    let e = &t.entries()[1];
    assert_eq!(e.name(), "phy_init");
    assert_eq!((e.ty(), e.subtype(), e.offset(), e.size()), (1, 1, 0xf000, 0x1000));
    assert!(t.validate().is_ok());
}

#[test]
fn corrupted_checksum_is_reported_with_both_digests() {
    let mut b = with_trailer(&three_records());
    let last = b.len() - 1;
    b[last] ^= 0x01;
    match Table::decode_binary(&b) {
        Err(Error::InvalidChecksum { expected, computed }) => {
            assert_eq!(expected, b[b.len() - 16..].to_vec());
            assert_eq!(computed, md5::compute(three_records()).0.to_vec());
            assert_ne!(expected, computed);
        }
        other => panic!("unexpected {:?}", other),
    }
}

#[test]
fn two_factory_rows_fail_validation() {
    let text = "factory,app,factory,0x10000,1M\nfactory2,app,factory,0x110000,1M\n";
    let t = Table::decode_csv(text).unwrap();
    assert!(matches!(t.validate(), Err(Error::MultipleFactoryPartitions)));
}

#[test]
fn binary_round_trip() {
    let t = sample_table();
    let b = t.encode_binary();
    assert_eq!(b.len(), 32 * 7);
    let back = Table::decode_binary(&b).unwrap();
    assert_eq!(format!("{:?}", back), format!("{:?}", t));
}

#[test]
fn csv_round_trip() {
    let t = sample_table();
    let text = t.encode_csv();
    let back = Table::decode_csv(&text).unwrap();
    assert_eq!(format!("{:?}", back), format!("{:?}", t));
}

#[test]
fn encoded_binary_matches_layout() {
    let t = Table::new(vec![entry("nvs", 1, 2, 0x9000, 0x6000)]);
    let b = t.encode_binary();
    let rec = record("nvs", 1, 2, 0x9000, 0x6000, 0);
    assert_eq!(b, with_trailer(&rec));
}

#[test]
fn encoded_csv_text() {
    let t = Table::new(vec![
        entry("nvs", DATA_TYPE, 0x02, 0x9000, 0x6000),
        Entry::new("x".to_string(), 0x40, 0x07, 0x10000, 0x1000, 3),
    ]);
    assert_eq!(
        t.encode_csv(),
        "# name,type,subtype,offset,size,flags\nnvs,data,nvs,0x9000,0x6000,\nx,0x40,0x7,0x10000,0x1000,encrypted:readonly\n"
    );
}

#[test]
fn validate_twice_gives_same_result() {
    let t = Table::new(vec![entry("a", DATA_TYPE, 2, 0x9000, 0x1000), entry("a", APP_TYPE, 0, 0x10000, 0x1000)]);
    let first = format!("{:?}", t.validate());
    let second = format!("{:?}", t.validate());
    assert_eq!(first, second);
    assert_eq!(first, "Err(DuplicatePartitions(\"a\"))");
    let ok = sample_table();
    assert!(ok.validate().is_ok());
    assert!(ok.validate().is_ok());
}

#[test]
fn duplicate_names_are_rejected() {
    let t = Table::new(vec![
        entry("nvs", DATA_TYPE, 2, 0x9000, 0x1000),
        entry("factory", APP_TYPE, 0, 0x10000, 0x1000),
        entry("nvs", DATA_TYPE, 2, 0x20000, 0x1000),
    ]);
    assert!(matches!(t.validate(), Err(Error::DuplicatePartitions(n)) if n == "nvs"));
}

#[test]
fn duplicate_csv_rows_are_rejected() {
    let text = "nvs,data,nvs,0x9000,0x6000\nnvs,data,nvs,0xf000,0x1000\n";
    assert!(matches!(Table::decode_csv(text), Err(Error::DuplicatePartitions(n)) if n == "nvs"));
}

#[test]
fn overlapping_entries_are_rejected() {
    let t = Table::new(vec![
        entry("factory", APP_TYPE, 0, 0x10000, 0x100000),
        entry("nvs", DATA_TYPE, 2, 0x9000, 0x1000),
        entry("storage", DATA_TYPE, 0x82, 0x100000, 0x1000),
    ]);
    match t.validate() {
        Err(Error::OverlappingPartitions(a, b)) => {
            assert_eq!(a, "factory");
            assert_eq!(b, "storage");
        }
        other => panic!("unexpected {:?}", other),
    }
}

#[test]
fn adjacent_entries_do_not_overlap() {
    let t = Table::new(vec![
        entry("nvs", DATA_TYPE, 2, 0x9000, 0x7000),
        entry("factory", APP_TYPE, 0, 0x10000, 0x10000),
    ]);
    assert!(t.validate().is_ok());
}

#[test]
fn two_otadata_entries_are_rejected() {
    let t = Table::new(vec![
        entry("ota1", DATA_TYPE, 0, 0xd000, 0x2000),
        entry("ota2", DATA_TYPE, 0, 0xf000, 0x1000),
        entry("factory", APP_TYPE, 0, 0x10000, 0x1000),
    ]);
    assert!(matches!(t.validate(), Err(Error::MultipleOtadataPartitions)));
}

#[test]
fn otadata_size_is_checked() {
    let wrong = Table::new(vec![
        entry("otadata", DATA_TYPE, 0, 0xd000, 0x1000),
        entry("factory", APP_TYPE, 0, 0x10000, 0x1000),
    ]);
    assert!(matches!(wrong.validate(), Err(Error::InvalidOtadataPartitionSize)));
    let right = Table::new(vec![
        entry("otadata", DATA_TYPE, 0, 0xd000, 0x2000),
        entry("factory", APP_TYPE, 0, 0x10000, 0x1000),
    ]);
    assert!(right.validate().is_ok());
}

#[test]
fn missing_app_is_rejected_until_one_is_added() {
    let mut t = Table::new(vec![entry("nvs", DATA_TYPE, 2, 0x9000, 0x6000)]);
    assert!(matches!(t.validate(), Err(Error::NoAppPartition)));
    t.add(entry("ota_0", APP_TYPE, 0x10, 0x10000, 0x1000));
    assert!(t.validate().is_ok());
}

#[test]
fn misaligned_entries_are_rejected() {
    let app = Table::new(vec![entry("factory", APP_TYPE, 0, 0x11000, 0x1000)]);
    assert!(matches!(app.validate(), Err(Error::UnalignedPartition)));
    let data = Table::new(vec![
        entry("nvs", DATA_TYPE, 2, 0x9800, 0x100),
        entry("factory", APP_TYPE, 0, 0x10000, 0x1000),
    ]);
    assert!(matches!(data.validate(), Err(Error::UnalignedPartition)));
}

#[test]
fn oversized_entries_are_rejected() {
    let limit = Table::new(vec![entry("factory", APP_TYPE, 0, 0x10000, 0x1000000)]);
    assert!(limit.validate().is_ok());
    let t = Table::new(vec![
        entry("factory", APP_TYPE, 0, 0x10000, 0x1000),
        entry("big", DATA_TYPE, 0x81, 0x20000, 0x1000001),
    ]);
    assert!(matches!(t.validate(), Err(Error::PartitionTooLarge(n)) if n == "big"));
}

#[test]
fn bad_length_is_rejected() {
    assert!(matches!(Table::decode_binary(&[0xFF; 33]), Err(Error::LengthNotMultipleOf32)));
    assert!(matches!(Table::decode_binary(&[0xFF; 31]), Err(Error::LengthNotMultipleOf32)));
}

#[test]
fn missing_end_marker_is_rejected() {
    assert!(matches!(Table::decode_binary(&[0u8; 64]), Err(Error::NoEndMarker)));
    assert!(matches!(Table::decode_binary(&three_records()), Err(Error::NoEndMarker)));
    assert!(matches!(Table::decode_binary(&[]), Err(Error::NoEndMarker)));
}

#[test]
fn end_marker_alone_is_an_empty_table() {
    let t = Table::decode_binary(&[0xFF; 32]).unwrap();
    assert_eq!(t.len(), 0);
    assert!(matches!(t.validate(), Err(Error::NoAppPartition)));
}

#[test]
fn table_without_checksum_decodes() {
    let mut b = three_records();
    b.extend(vec![0xFF; 64]);
    assert_eq!(Table::decode_binary(&b).unwrap().len(), 3);
}

#[test]
fn bad_magic_is_rejected() {
    let mut b = three_records();
    b[32] = 0x00;
    b.extend(vec![0xFF; 32]);
    assert!(matches!(Table::decode_binary(&b), Err(Error::MalformedRecord)));
}

#[test]
fn invalid_utf8_name_is_rejected() {
    let mut b = record("nvs", 1, 2, 0x9000, 0x6000, 0);
    b[12] = 0xC3;
    b[13] = 0x28;
    b.extend(vec![0xFF; 32]);
    assert!(matches!(Table::decode_binary(&b), Err(Error::FromUtf8Error(_))));
}

#[test]
fn sixteen_byte_name_fills_its_field() {
    let t = Table::new(vec![entry("abcdefghijklmnop", APP_TYPE, 0, 0x10000, 0x1000)]);
    let back = Table::decode_binary(&t.encode_binary()).unwrap();
    assert_eq!(back.entries()[0].name(), "abcdefghijklmnop");
}

#[test]
fn csv_numbers_and_blank_offsets() {
    let text = "# Name, Type, SubType, Offset, Size, Flags\n\
                nvs,      data, nvs,     ,        0x6000,\n\
                phy_init, data, phy,     ,        4K,\n\
                factory,  app,  factory, ,        1M,\n\
                storage,  0x40, 7,       ,        8192, encrypted\n\
                last,     data, spiffs,  0X400000, 1m, readonly\n";
    let t = Table::decode_csv(text).unwrap();
    let got: Vec<(String, u8, u8, u32, u32, u32)> = t
        .entries()
        .iter()
        .map(|e| (e.name().to_string(), e.ty(), e.subtype(), e.offset(), e.size(), e.flags()))
        .collect();
    assert_eq!(
        got,
        vec![
            ("nvs".to_string(), 1, 2, 0x9000, 0x6000, 0),
            ("phy_init".to_string(), 1, 1, 0xf000, 0x1000, 0),
            ("factory".to_string(), 0, 0, 0x10000, 0x100000, 0),
            ("storage".to_string(), 0x40, 7, 0x110000, 0x2000, 1),
            ("last".to_string(), 1, 0x82, 0x400000, 0x100000, 2),
        ]
    );
    assert!(t.entries()[3].encrypted());
    assert!(t.entries()[4].readonly());
}

#[test]
fn csv_bad_rows_are_reported() {
    assert!(matches!(Table::decode_csv("a,app,factory\n"), Err(Error::InvalidCsvRow(0))));
    assert!(matches!(
        Table::decode_csv("a,app,factory,0x10000,1M\nb,bogus,x,,1K\n"),
        Err(Error::InvalidCsvRow(1))
    ));
    assert!(matches!(Table::decode_csv("a,app,nvs,,1K\n"), Err(Error::InvalidCsvRow(0))));
    assert!(matches!(Table::decode_csv("a,data,nvs,,4096M\n"), Err(Error::InvalidCsvRow(0))));
    assert!(matches!(Table::decode_csv("a,data,nvs,,0x\n"), Err(Error::InvalidCsvRow(0))));
    assert!(matches!(Table::decode_csv("a,data,nvs,,12,sticky\n"), Err(Error::InvalidCsvRow(0))));
}

#[test]
fn find_and_remove_by_name() {
    let mut t = sample_table();
    assert_eq!(t.find("factory"), Some(2));
    assert_eq!(t.find("missing"), None);
    assert_eq!(t.find_by_name("nvs").unwrap().offset(), 0x9000);
    let removed = t.remove("otadata").unwrap();
    assert_eq!(removed.size(), 0x2000);
    assert_eq!(t.len(), 4);
    assert!(t.remove("otadata").is_none());
    assert_eq!(t.len(), 4);
}

#[test]
fn csv_duplicates_are_found_before_rows_are_read() {
    let text = "nvs,data,nvs,0x9000,0x6000\nnvs,bogus,x,,\n";
    assert!(matches!(Table::decode_csv(text), Err(Error::DuplicatePartitions(n)) if n == "nvs"));
}

#[test]
fn symbolic_names_map_both_ways() {
    assert_eq!(type_code("data"), Some(1));
    assert_eq!(type_code("bogus"), None);
    assert_eq!(type_keyword(0), Some("app"));
    assert_eq!(type_keyword(0x40), None);
    assert_eq!(subtype_code(1, "spiffs"), Some(0x82));
    assert_eq!(subtype_code(0, "ota_5"), Some(0x15));
    assert_eq!(subtype_code(0, "spiffs"), None);
    assert_eq!(subtype_keyword(0, 0x15), Some("ota_5"));
    assert_eq!(subtype_keyword(1, 0x83), Some("littlefs"));
    assert_eq!(subtype_keyword(0x40, 0), None);
}

#[test]
fn csv_header_row_is_skipped() {
    let text = "name,type,subtype,offset,size,flags\nfactory,app,factory,0x10000,1M,\nbad,app\n";
    assert!(matches!(Table::decode_csv(text), Err(Error::InvalidCsvRow(1))));
    let text = "name, type, subtype, offset, size, flags\nfactory,app,factory,0x10000,1M,\n";
    let t = Table::decode_csv(text).unwrap();
    assert_eq!(t.len(), 1);
    assert_eq!(t.entries()[0].name(), "factory");
}

use rar::error::RarError;
use rar::file_block::FileBlock;
use rar::file_writer::FileWriter;

fn member(name: &str, unpacked_size: u64) -> FileBlock {
    let mut file = FileBlock::default();
    file.unpacked_size = unpacked_size;
    file.name = name.as_bytes().to_vec();
    file
}

#[test]
fn test_file_writer() {
    let data = [
        0x00, 0x01, 0x02, 0x03, 0x04, 0x05, 0x06, 0x07, 0x08, 0x09, 0x10, 0x11, 0x12, 0x13, 0x14,
    ];

    let mut fw = FileWriter::new(member("test.txt", 10));
    assert_eq!(fw.write_all(&data), Err(RarError::CapacityReached));

    assert_eq!(fw.bytes(), &data[..10].to_vec());
    assert_eq!(fw.bytes_written(), 10);
    assert_eq!(fw.name(), &b"test.txt".to_vec());
}

#[test]
fn sink_reports_partial_writes() {
    let mut fw = FileWriter::new(member("a", 5));
    assert_eq!(fw.write(&[1, 2, 3]), Ok(3));
    assert_eq!(fw.write(&[]), Ok(0));
    assert_eq!(fw.write(&[4, 5, 6, 7]), Ok(2));
    assert_eq!(fw.bytes(), &vec![1, 2, 3, 4, 5]);
    assert_eq!(fw.write(&[8]), Err(RarError::CapacityReached));
    assert_eq!(fw.write(&[]), Err(RarError::CapacityReached));
    assert_eq!(fw.bytes(), &vec![1, 2, 3, 4, 5]);
}

#[test]
fn sink_accepts_exactly_its_capacity() {
    let mut fw = FileWriter::new(member("a", 4));
    assert_eq!(fw.write_all(&[1, 2]), Ok(()));
    assert_eq!(fw.write_all(&[]), Ok(()));
    assert_eq!(fw.write_all(&[3, 4]), Ok(()));
    assert_eq!(fw.write_all(&[]), Ok(()));
    assert_eq!(fw.write_all(&[5]), Err(RarError::CapacityReached));
    assert_eq!(fw.bytes(), &vec![1, 2, 3, 4]);
}

#[test]
fn sink_of_an_empty_member_accepts_nothing() {
    let mut fw = FileWriter::new(member("empty", 0));
    assert_eq!(fw.write(&[1]), Err(RarError::CapacityReached));
    assert_eq!(fw.write_all(&[1, 2, 3]), Err(RarError::CapacityReached));
    assert_eq!(fw.bytes_written(), 0);
}

use rar::archive_block::{archive, ArchiveBlock, ArchiveFlags};
use rar::end_block::{end_block, EndBlock};
use rar::error::ParseError;
use rar::header::{base_header, block, header, Flags, Header, Typ};

#[test]
fn test_header() {
    let data = [0xF3, 0xE1, 0x82, 0xEB, 0x0B, 0x01, 0x05, 0x07, 0x00];

    let mut flags = Flags::new();
    flags.extra_area = true;
    flags.skip = true;
    let mut h = Header::new(4091642603, 11, Typ::MainArchive, flags);
    h.extra_area_size = 7;
    assert_eq!(header(&data), Ok((&[0x00][..], h)));
}

#[test]
fn test_base_header() {
    let data = [0xF3, 0xE1, 0x82, 0xEB, 0x0B, 0x01, 0x05, 0x07];

    let mut flags = Flags::new();
    flags.extra_area = true;
    flags.skip = true;
    let header = Header::new(4091642603, 11, Typ::MainArchive, flags);
    assert_eq!(base_header(&data), Ok((&[0x07][..], header)));
}

#[test]
fn header_reads_the_checksum_big_endian() {
    let data = [0x01, 0x02, 0x03, 0x04, 0x00, 0x05, 0x00];
    let (rest, h) = header(&data).unwrap();
    assert_eq!(h.crc, 0x01020304);
    assert_eq!(h.typ, Typ::EndArchive);
    assert_eq!(rest.len(), 0);
}

#[test]
fn header_reads_both_sizes_when_flagged() {
    // flags 0x03: extra area and data area
    let data = [0, 0, 0, 0, 0x05, 0x02, 0x03, 0x0B, 0xC6, 0x10, 0xAA];
    let (rest, h) = header(&data).unwrap();
    assert_eq!(h.extra_area_size, 11);
    assert_eq!(h.data_area_size, 2118);
    assert!(h.flags.extra_area && h.flags.data_area);
    assert_eq!(rest, &[0xAA][..]);
}

#[test]
fn header_decodes_every_flag_and_type() {
    assert_eq!(
        Flags::from(0x7F),
        Flags {
            extra_area: true,
            data_area: true,
            skip: true,
            data_prev: true,
            data_next: true,
            preceding: true,
            preserve: true,
        }
    );
    assert_eq!(Flags::from(0x10).data_next, true);
    assert_eq!(Flags::from(0x08).data_prev, true);
    assert_eq!(Flags::from(0x80), Flags::new());
    assert_eq!(Typ::from(1), Typ::MainArchive);
    assert_eq!(Typ::from(2), Typ::File);
    assert_eq!(Typ::from(3), Typ::Service);
    assert_eq!(Typ::from(4), Typ::Encryption);
    assert_eq!(Typ::from(5), Typ::EndArchive);
    assert_eq!(Typ::from(0), Typ::Unknown);
    assert_eq!(Typ::from(6), Typ::Unknown);
    assert_eq!(Typ::default(), Typ::Unknown);
    assert_eq!(Flags::default(), Flags::new());
}

#[test]
fn header_cut_short_is_incomplete() {
    assert_eq!(header(&[]), Err(ParseError::Incomplete));
    assert_eq!(header(&[0xF3, 0xE1, 0x82]), Err(ParseError::Incomplete));
    assert_eq!(
        header(&[0xF3, 0xE1, 0x82, 0xEB, 0x0B, 0x01, 0x05]),
        Err(ParseError::Incomplete)
    );
}

#[test]
fn block_extent_counts_header_extra_and_data() {
    // checksum, size 3, type 9, flags 0x06 (data, skip), data size 5
    let data = [0, 0, 0, 0, 0x03, 0x09, 0x06, 0x05, 1, 2, 3, 4, 5];
    let (rest, (h, after)) = block(&data).unwrap();
    assert_eq!(h.typ, Typ::Unknown);
    assert_eq!(rest.len(), 5);
    // 4 + 1 + 3 + 0 + 5 bytes in all, of which 8 are header fields
    assert_eq!(after, 5);
}

#[test]
fn block_that_ends_within_its_header_is_malformed() {
    // size 1 ends the block before the flags
    let data = [0, 0, 0, 0, 0x01, 0x09, 0x04];
    assert_eq!(block(&data), Err(ParseError::Malformed));
}

#[test]
fn archive_test_archive() {
    // test a success case
    let data = [
        0xF3, 0xE1, 0x82, 0xEB, 0x0B, 0x01, 0x05, 0x07, 0x00, 0x06, 0x01, 0x01, 0x80, 0x80, 0x80,
        0x00, 0x8C, 0x0D, 0x88, 0xE2,
    ];

    let mut flags = Flags::new();
    flags.extra_area = true;
    flags.skip = true;
    let mut arc = ArchiveBlock {
        head: Header::new(4091642603, 11, Typ::MainArchive, flags),
        flags: ArchiveFlags::new(),
        volume_number: 0,
    };
    arc.head.extra_area_size = 7;
    assert_eq!(archive(&data), Ok((&[0x8C, 0x0D, 0x88, 0xE2][..], arc)));

    // test a wrong header type
    let data = [
        0xF3, 0xE1, 0x82, 0xEB, 0x0B, 0x02, 0x05, 0x07, 0x00, 0x06, 0x01, 0x01, 0x80, 0x80, 0x80,
        0x00, 0x8C, 0x0D, 0x88, 0xE2,
    ];
    assert_eq!(archive(&data), Err(ParseError::WrongType));
}

#[test]
fn archive_block_test_archive() {
    // test a success case
    let data = [
        0xF3, 0xE1, 0x82, 0xEB, 0x0B, 0x01, 0x05, 0x07, 0x00, 0x06, 0x01, 0x01, 0x80, 0x80, 0x80,
        0x00, 0x8C, 0x0D, 0x88, 0xE2,
    ];

    let mut flags = Flags::default();
    flags.extra_area = true;
    flags.skip = true;
    let mut arc = ArchiveBlock {
        head: Header::new(4091642603, 11, Typ::MainArchive, flags),
        flags: ArchiveFlags::default(),
        volume_number: 0,
    };
    arc.head.extra_area_size = 7;
    assert_eq!(
        ArchiveBlock::parse(&data),
        Ok((&[0x8C, 0x0D, 0x88, 0xE2][..], arc))
    );

    // test a wrong header type
    let data = [
        0xF3, 0xE1, 0x82, 0xEB, 0x0B, 0x02, 0x05, 0x07, 0x00, 0x06, 0x01, 0x01, 0x80, 0x80, 0x80,
        0x00, 0x8C, 0x0D, 0x88, 0xE2,
    ];
    assert_eq!(ArchiveBlock::parse(&data), Err(ParseError::WrongType));
}

#[test]
fn main_archive_block_leaves_the_remainder_at_byte_16() {
    let data = [
        0xF3, 0xE1, 0x82, 0xEB, 0x0B, 0x01, 0x05, 0x07, 0x00, 0x06, 0x01, 0x01, 0x80, 0x80, 0x80,
        0x00, 0x11, 0x22,
    ];
    let (rest, arc) = ArchiveBlock::parse(&data).unwrap();
    assert_eq!(rest, &data[16..]);
    assert_eq!(arc.head.crc, 0xF3E182EB);
    assert_eq!(arc.head.size, 11);
    assert_eq!(arc.head.typ, Typ::MainArchive);
    assert!(arc.head.flags.extra_area && arc.head.flags.skip);
    assert!(!arc.head.flags.data_area);
    assert_eq!(arc.head.extra_area_size, 7);
    assert_eq!(arc.flags, ArchiveFlags::new());
    assert_eq!(arc.volume_number, 0);
}

#[test]
fn archive_block_reads_the_volume_number_when_flagged() {
    // archive flags 0x03: multivolume, volume number present
    let data = [0, 0, 0, 0, 0x04, 0x01, 0x00, 0x03, 0x02, 0x99];
    let (rest, arc) = archive(&data).unwrap();
    assert!(arc.flags.multivolume && arc.flags.volume_number);
    assert_eq!(arc.volume_number, 2);
    assert_eq!(rest, &[0x99][..]);
    assert_eq!(
        ArchiveFlags::from(0x1F),
        ArchiveFlags {
            multivolume: true,
            volume_number: true,
            solid: true,
            recovery: true,
            locked: true,
        }
    );
}

#[test]
fn archive_block_needs_its_whole_extra_area() {
    let data = [
        0xF3, 0xE1, 0x82, 0xEB, 0x0B, 0x01, 0x05, 0x07, 0x00, 0x06, 0x01, 0x01,
    ];
    assert_eq!(archive(&data), Err(ParseError::Incomplete));
}

#[test]
fn end_test_archive() {
    // test a success case
    let data = [0x1D, 0x77, 0x56, 0x51, 0x03, 0x05, 0x04, 0x00];

    let mut flags = Flags::new();
    flags.skip = true;
    let arc = EndBlock {
        head: Header::new(494360145, 3, Typ::EndArchive, flags),
        last_volume: true,
    };
    assert_eq!(end_block(&data), Ok((&[][..], arc)));

    // test a wrong header type
    let data = [
        0xF3, 0xE1, 0x82, 0xEB, 0x0B, 0x02, 0x05, 0x07, 0x00, 0x06, 0x01, 0x01, 0x80, 0x80, 0x80,
        0x00, 0x8C, 0x0D, 0x88, 0xE2,
    ];
    assert_eq!(end_block(&data), Err(ParseError::WrongType));
}

#[test]
fn end_block_test_archive() {
    // test a success case
    let data = [0x1D, 0x77, 0x56, 0x51, 0x03, 0x05, 0x04, 0x00];

    let mut flags = Flags::new();
    flags.skip = true;
    let arc = EndBlock {
        head: Header::new(494360145, 3, Typ::EndArchive, flags),
        last_volume: true,
    };
    assert_eq!(EndBlock::parse(&data), Ok((&[][..], arc)));

    // test a wrong header type
    let data = [
        0xF3, 0xE1, 0x82, 0xEB, 0x0B, 0x02, 0x05, 0x07, 0x00, 0x06, 0x01, 0x01, 0x80, 0x80, 0x80,
        0x00, 0x8C, 0x0D, 0x88, 0xE2,
    ];
    assert_eq!(EndBlock::parse(&data), Err(ParseError::WrongType));
}

#[test]
fn end_block_goes_by_bit_zero_only() {
    let more = [0x1D, 0x77, 0x56, 0x51, 0x03, 0x05, 0x04, 0x01];
    assert_eq!(EndBlock::parse(&more).unwrap().1.last_volume, false);
    let last = [0x1D, 0x77, 0x56, 0x51, 0x03, 0x05, 0x04, 0x02];
    assert_eq!(EndBlock::parse(&last).unwrap().1.last_volume, true);
}

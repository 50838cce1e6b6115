use rar::blocks::{read_archive, read_end, read_file, read_header, read_signature};
use rar::error::{ParseError, RarError};
use rar::rar_reader::{DataBuffer, RarReader, BUFFER_SIZE};
use rar::sig_block::{RarSignature, SignatureBlock};
use rar::vint::vint;

const DATA: [u8; 11] = [
    0x52, 0x61, 0x72, 0x21, 0x1A, 0x07, 0x01, 0x00, 0xFF, 0xFF, 0xFF,
];

#[test]
fn buffer_test_exec_nom_parser() {
    let data = DATA;

    let mut db = DataBuffer::new(data.to_vec());

    assert!(db.exec_nom_parser(RarSignature::parse).is_ok());
    assert_eq!(db.fill_buf(), &data[8..]);
}

#[test]
fn buffer_test_consume() {
    let data = DATA;

    let mut db = DataBuffer::new(data.to_vec());

    db.consume(8);
    assert_eq!(db.fill_buf(), &data[8..]);
}

#[test]
fn buffer_test_seek() {
    let data = DATA;

    let mut db = DataBuffer::new(data.to_vec());

    db.consume(8);
    assert_eq!(db.fill_buf(), &data[8..]);
}

#[test]
fn rar_reader_test_exec_nom_parser() {
    let data = DATA;

    let mut db = RarReader::new(data.to_vec());

    assert!(db.exec_nom_parser(SignatureBlock::parse).is_ok());
    assert_eq!(db.fill_buf(), &data[8..]);
}

#[test]
fn rar_reader_test_consume() {
    let data = DATA;

    let mut db = RarReader::new(data.to_vec());

    db.consume(8);
    assert_eq!(db.fill_buf(), &data[8..]);
}

#[test]
fn rar_reader_test_seek() {
    let data = DATA;

    let mut db = RarReader::new(data.to_vec());

    db.consume(8);
    assert_eq!(db.fill_buf(), &data[8..]);
}

#[test]
fn forward_seek_moves_within_and_beyond_the_window() {
    let data: Vec<u8> = (0..20000u32).map(|i| (i % 251) as u8).collect();
    let mut db = DataBuffer::new(data.clone());
    assert_eq!(db.peek().len(), BUFFER_SIZE);
    assert_eq!(db.seek(3), Ok(()));
    assert_eq!(db.tell(), 3);
    assert_eq!(db.peek(), &data[3..BUFFER_SIZE]);

    let mut db = RarReader::new(data.clone());
    assert_eq!(db.r_seek(10000), Ok(()));
    assert_eq!(db.tell(), 10000);
    assert_eq!(db.remaining_len(), 10000);
    assert_eq!(db.peek().len(), 0);
    assert_eq!(db.fill_buf(), &data[10000..10000 + BUFFER_SIZE]);
    assert_eq!(db.r_seek(10000), Ok(()));
    assert_eq!(db.fill_buf().len(), 0);
}

#[test]
fn forward_seek_past_the_end_is_truncated() {
    let mut db = RarReader::new(DATA.to_vec());
    assert_eq!(db.r_seek(12), Err(RarError::Truncated));
    assert_eq!(db.tell(), 0);
    assert_eq!(db.r_seek(11), Ok(()));
    assert_eq!(db.r_seek(1), Err(RarError::Truncated));
    assert_eq!(db.r_seek(0), Ok(()));
}

#[test]
fn seek_from_start_repositions_and_empties_the_window() {
    let mut db = RarReader::new(DATA.to_vec());
    assert_eq!(db.r_seek(9), Ok(()));
    assert_eq!(db.seek_from_start(2), Ok(()));
    assert_eq!(db.tell(), 2);
    assert_eq!(db.peek().len(), 0);
    assert_eq!(db.read(3), vec![0x72, 0x21, 0x1A]);
    assert_eq!(db.seek_from_start(12), Err(RarError::Truncated));
    assert_eq!(db.tell(), 5);
}

#[test]
fn read_returns_what_remains_when_asked_for_more() {
    let mut db = RarReader::new(DATA.to_vec());
    assert_eq!(db.len(), 11);
    assert_eq!(db.read(4), b"Rar!".to_vec());
    assert_eq!(db.read(100), DATA[4..].to_vec());
    assert_eq!(db.read(100), Vec::<u8>::new());
}

#[test]
fn take_limits_and_chain_joins() {
    let mut first = RarReader::new(DATA.to_vec());
    first.consume(4);
    let limited = first.take(3);
    assert_eq!(limited.len(), 3);
    assert_eq!(limited.peek(), &DATA[4..7]);

    let mut second = RarReader::new(vec![1, 2, 3, 4]);
    second.consume(1);
    let mut joined = limited.chain(second);
    assert_eq!(joined.tell(), 0);
    assert_eq!(joined.read(100), vec![0x1A, 0x07, 0x01, 2, 3, 4]);

    let all = RarReader::new(DATA.to_vec()).take(u64::MAX);
    assert_eq!(all.len(), 11);
}

#[test]
fn parser_value_moves_the_position_past_what_was_accepted() {
    let mut db = RarReader::new(vec![0xFF, 0x01, 0x7F, 0x80]);
    assert_eq!(db.exec_nom_parser(vint), Ok(0xFF));
    assert_eq!(db.tell(), 2);
    assert_eq!(db.exec_nom_parser(vint), Ok(0x7F));
    assert_eq!(db.tell(), 3);
}

#[test]
fn unterminated_vint_surfaces_as_truncated() {
    let mut db = RarReader::new(vec![0xFF, 0xFF]);
    assert_eq!(db.exec_nom_parser(vint), Err(RarError::Truncated));
    assert_eq!(db.tell(), 0);
    let mut db = RarReader::new(vec![0x80; 3 * BUFFER_SIZE]);
    assert_eq!(db.exec_nom_parser(vint), Err(RarError::Truncated));
    let mut db = RarReader::new(Vec::new());
    assert_eq!(db.exec_nom_parser(vint), Err(RarError::Truncated));
}

#[test]
fn malformed_input_surfaces_as_failed_parse() {
    let mut long = vec![0x80; 10];
    long.push(0x00);
    let mut db = RarReader::new(long);
    assert_eq!(db.exec_nom_parser(vint), Err(RarError::ParseFailed));
    assert_eq!(db.tell(), 0);
    let mut db = RarReader::new(b"wrong".to_vec());
    assert_eq!(read_signature(&mut db), Err(RarError::ParseFailed));
}

#[test]
fn parser_that_hands_back_more_than_it_got_counts_as_failed() {
    fn grow(_: &[u8]) -> Result<(&[u8], u8), ParseError> {
        Ok((&[1, 2, 3, 4, 5, 6, 7, 8, 9, 10, 11, 12][..], 0))
    }
    let mut db = RarReader::new(DATA.to_vec());
    assert_eq!(db.exec_nom_parser(grow), Err(RarError::ParseFailed));
    assert_eq!(db.tell(), 0);
}

/// Gives a closure the signature of a parser.
fn parser<F, D>(f: F) -> F
where
    F: for<'a> Fn(&'a [u8]) -> Result<(&'a [u8], D), ParseError>,
{
    f
}

#[test]
fn parser_runs_on_the_buffered_window_first() {
    let seen = std::cell::RefCell::new(Vec::<usize>::new());
    let refuse = parser(|w| {
        seen.borrow_mut().push(w.len());
        Err::<(&[u8], u8), ParseError>(ParseError::Malformed)
    });
    let mut db = RarReader::new(vec![7; 3 * BUFFER_SIZE]);
    assert_eq!(db.exec_nom_parser(refuse), Err(RarError::ParseFailed));
    assert_eq!(*seen.borrow(), vec![BUFFER_SIZE]);
    assert_eq!(db.tell(), 0);
    assert_eq!(db.peek().len(), BUFFER_SIZE);

    // after a part of the window was consumed, the rest of it is the window
    db.consume(100);
    seen.borrow_mut().clear();
    let wrong = parser(|w| {
        seen.borrow_mut().push(w.len());
        Err::<(&[u8], u8), ParseError>(ParseError::WrongType)
    });
    assert_eq!(db.exec_nom_parser(wrong), Err(RarError::WrongType));
    assert_eq!(*seen.borrow(), vec![BUFFER_SIZE - 100]);
    assert_eq!(db.tell(), 100);
    assert_eq!(db.fill_buf().len(), BUFFER_SIZE - 100);
}

#[test]
fn window_grows_only_after_the_parser_found_it_incomplete() {
    let seen = std::cell::RefCell::new(Vec::<usize>::new());
    let hungry = parser(|w| {
        seen.borrow_mut().push(w.len());
        if w.len() < 2 * BUFFER_SIZE + 10 {
            Err(ParseError::Incomplete)
        } else {
            Ok((&w[5..], w.len()))
        }
    });
    let mut db = RarReader::new(vec![7; 2 * BUFFER_SIZE + 50]);
    db.consume(20);
    assert_eq!(db.exec_nom_parser(hungry), Ok(2 * BUFFER_SIZE + 30));
    assert_eq!(
        *seen.borrow(),
        vec![BUFFER_SIZE - 20, 2 * BUFFER_SIZE - 20, 2 * BUFFER_SIZE + 30]
    );
    assert_eq!(db.tell(), 25);
    assert_eq!(db.peek().len(), 2 * BUFFER_SIZE + 25);

    let never = parser(|w| {
        seen.borrow_mut().push(w.len());
        Err::<(&[u8], u8), ParseError>(ParseError::Incomplete)
    });
    seen.borrow_mut().clear();
    let mut db = RarReader::new(vec![7; BUFFER_SIZE + 1]);
    assert_eq!(db.exec_nom_parser(never), Err(RarError::Truncated));
    assert_eq!(*seen.borrow(), vec![BUFFER_SIZE, BUFFER_SIZE + 1]);
    assert_eq!(db.tell(), 0);
}

#[test]
fn parser_is_given_more_bytes_until_it_decides() {
    // a name that reaches far beyond the first window
    let name_len = 3 * BUFFER_SIZE + 5;
    let mut volume = vec![0, 0, 0, 0, 0x00, 0x02, 0x00, 0x00, 0x00, 0x00, 0x00, 0x00];
    volume.extend_from_slice(&rar::vint::encode(name_len as u64));
    volume.extend(std::iter::repeat(b'n').take(name_len));
    volume.extend_from_slice(&[9, 9, 9]);
    let mut db = RarReader::new(volume.clone());
    let f = read_file(&mut db).unwrap();
    assert_eq!(f.name.len(), name_len);
    assert_eq!(db.remaining_len(), 3);
    // the same block without its last byte never completes
    volume.truncate(volume.len() - 4);
    let mut db = RarReader::new(volume);
    assert_eq!(read_file(&mut db).err(), Some(RarError::Truncated));
    assert_eq!(db.tell(), 0);
}

#[test]
fn typed_reads_report_the_wrong_type_without_moving() {
    let end = vec![0x1D, 0x77, 0x56, 0x51, 0x03, 0x05, 0x04, 0x00];
    let mut db = RarReader::new(end);
    assert_eq!(read_file(&mut db).err(), Some(RarError::WrongType));
    assert_eq!(read_archive(&mut db), Err(RarError::WrongType));
    assert_eq!(db.tell(), 0);
    assert_eq!(read_header(&mut db).unwrap().size, 3);
    assert_eq!(db.seek_from_start(0), Ok(()));
    assert_eq!(read_end(&mut db).unwrap().last_volume, true);
    assert_eq!(db.remaining_len(), 0);
}

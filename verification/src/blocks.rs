//! Reading whole blocks off a stream. Whatever the refills of the window,
//! each read decides as the block's parser decides on all remaining bytes.

use vstd::prelude::*;
use crate::archive_block::{ArchiveBlock, lemma_archive_stable, spec_archive};
use crate::end_block::{EndBlock, lemma_end_block_stable, spec_end_block};
use crate::error::{ParseError, Parsed, RarError, carries, parses_as, parses_as_view, surfaced};
use crate::file_block::{FileBlock, lemma_file_stable, spec_file};
use crate::header::{
    Header, block, header, lemma_block_bounded, lemma_block_stable, lemma_header_stable,
    spec_block, spec_header,
};
use crate::rar_reader::{RarReader, found_incomplete, parser_step, ran_parser, refilled};
use crate::sig_block::{SignatureBlock, lemma_rar_signature_stable, spec_rar_signature};

verus! {

/// The reader went from `before` to `after` handing back `r`, as decided by
/// the outcome `whole` of a parser on all bytes that remained: a value moves
/// the position past the accepted bytes, a failure leaves it.
pub open spec fn reads<T>(
    before: RarReader,
    after: RarReader,
    r: Result<T, RarError>,
    whole: Parsed<T>,
) -> bool {
    &&& after.stream() == before.stream()
    &&& after.in_bounds()
    &&& match whole {
        Ok((n, value)) => {
            &&& r matches Ok(v)
            &&& v == value
            &&& n <= before.remaining().len()
            &&& after.position() == before.position() + n
            &&& after.remaining() == before.remaining().skip(n as int)
        },
        Err(e) => {
            &&& r matches Err(e2)
            &&& e2 == surfaced(e)
            &&& after.position() == before.position()
        },
    }
}

/// As [`reads`], for values that are compared through their view.
pub open spec fn reads_view<T: View>(
    before: RarReader,
    after: RarReader,
    r: Result<T, RarError>,
    whole: Parsed<T::V>,
) -> bool {
    &&& after.stream() == before.stream()
    &&& after.in_bounds()
    &&& match whole {
        Ok((n, value)) => {
            &&& r matches Ok(v)
            &&& v@ == value
            &&& n <= before.remaining().len()
            &&& after.position() == before.position() + n
            &&& after.remaining() == before.remaining().skip(n as int)
        },
        Err(e) => {
            &&& r matches Err(e2)
            &&& e2 == surfaced(e)
            &&& after.position() == before.position()
        },
    }
}

/// The window on which a parser decides: `k` refills are needed and
/// suffice. On the buffered window and on the window after each of fewer
/// refills the parser wants more bytes; after `k` refills it decides, or
/// the window holds all that remains.
pub open spec fn decides_after<T>(
    parser: spec_fn(Seq<u8>) -> Parsed<T>,
    before: RarReader,
    k: nat,
) -> bool {
    let all = before.remaining();
    let last = refilled(before.window_len(), all.len(), k);
    &&& forall|j: nat|
        j < k ==> parser(
            all.take(#[trigger] refilled(before.window_len(), all.len(), j) as int),
        ) == Err::<(nat, T), ParseError>(ParseError::Incomplete)
    &&& before.window_len() <= last <= all.len()
    &&& last == all.len() || parser(all.take(last as int)) != Err::<(nat, T), ParseError>(
        ParseError::Incomplete,
    )
}

/// What is buffered after a read: the window on which the parser decided,
/// less what was accepted from it.
pub open spec fn window_left<T>(
    parser: spec_fn(Seq<u8>) -> Parsed<T>,
    before: RarReader,
    after: RarReader,
) -> bool {
    exists|k: nat| #[trigger]
        decides_after(parser, before, k) && after.window_len() + (match parser(
            before.remaining(),
        ) {
            Ok((n, _)) => n,
            Err(_) => 0,
        }) == refilled(before.window_len(), before.remaining().len(), k)
}

/// A run of a parser that answers as `parser` says, and whose answers
/// carry from a window to its extensions, reads as `parser` decides on all
/// that remains, and leaves the window on which it decided.
pub proof fn lemma_run_decides<F, T>(
    func: F,
    parser: spec_fn(Seq<u8>) -> Parsed<T>,
    before: RarReader,
    after: RarReader,
    r: Result<T, RarError>,
    k: nat,
    win: &[u8],
    res: Result<(&[u8], T), ParseError>,
) where F: Fn(&[u8]) -> Result<(&[u8], T), ParseError>
    requires
        after.stream() == before.stream(),
        after.in_bounds(),
        ran_parser(func, before, after, r, k, win, res),
        forall|w: &[u8], x: Result<(&[u8], T), ParseError>| #[trigger]
            call_ensures(func, (w,), x) ==> parses_as(w@, x, parser(w@)),
        forall|s: Seq<u8>, t: Seq<u8>|
            s.is_prefix_of(t) ==> #[trigger] carries(parser(s), parser(t)),
    ensures
        reads(before, after, r, parser(before.remaining())),
        window_left(parser, before, after),
{
    broadcast use vstd::seq_lib::lemma_seq_skip_of_skip;

    let all = before.remaining();
    let n = refilled(before.window_len(), all.len(), k);
    assert(win@.is_prefix_of(all));
    assert(carries(parser(win@), parser(all)));
    if n == all.len() {
        assert(win@ =~= all);
    }
    assert forall|j: nat| j < k implies parser(
        all.take(#[trigger] refilled(before.window_len(), all.len(), j) as int),
    ) == Err::<(nat, T), ParseError>(ParseError::Incomplete) by {
        let m = refilled(before.window_len(), all.len(), j);
        assert(found_incomplete(func, all, m));
        let (w, x) = choose|w: &[u8], x: Result<(&[u8], T), ParseError>| #[trigger]
            call_ensures(func, (w,), x) && w@ == all.take(m as int) && x == Err::<
                (&[u8], T),
                ParseError,
            >(ParseError::Incomplete);
        assert(parses_as(w@, x, parser(w@)));
    }
    assert(decides_after(parser, before, k));
}

/// As [`lemma_run_decides`], for values that are compared through their
/// view.
pub proof fn lemma_run_decides_view<F, T: View>(
    func: F,
    parser: spec_fn(Seq<u8>) -> Parsed<T::V>,
    before: RarReader,
    after: RarReader,
    r: Result<T, RarError>,
    k: nat,
    win: &[u8],
    res: Result<(&[u8], T), ParseError>,
) where F: Fn(&[u8]) -> Result<(&[u8], T), ParseError>
    requires
        after.stream() == before.stream(),
        after.in_bounds(),
        ran_parser(func, before, after, r, k, win, res),
        forall|w: &[u8], x: Result<(&[u8], T), ParseError>| #[trigger]
            call_ensures(func, (w,), x) ==> parses_as_view(w@, x, parser(w@)),
        forall|s: Seq<u8>, t: Seq<u8>|
            s.is_prefix_of(t) ==> #[trigger] carries(parser(s), parser(t)),
    ensures
        reads_view(before, after, r, parser(before.remaining())),
        window_left(parser, before, after),
{
    broadcast use vstd::seq_lib::lemma_seq_skip_of_skip;

    let all = before.remaining();
    let n = refilled(before.window_len(), all.len(), k);
    assert(win@.is_prefix_of(all));
    assert(carries(parser(win@), parser(all)));
    if n == all.len() {
        assert(win@ =~= all);
    }
    assert forall|j: nat| j < k implies parser(
        all.take(#[trigger] refilled(before.window_len(), all.len(), j) as int),
    ) == Err::<(nat, T::V), ParseError>(ParseError::Incomplete) by {
        let m = refilled(before.window_len(), all.len(), j);
        assert(found_incomplete(func, all, m));
        let (w, x) = choose|w: &[u8], x: Result<(&[u8], T), ParseError>| #[trigger]
            call_ensures(func, (w,), x) && w@ == all.take(m as int) && x == Err::<
                (&[u8], T),
                ParseError,
            >(ParseError::Incomplete);
        assert(parses_as_view(w@, x, parser(w@)));
    }
    assert(decides_after(parser, before, k));
}

/// Reads the signature of the volume.
pub fn read_signature(reader: &mut RarReader) -> (r: Result<SignatureBlock, RarError>)
    ensures
        reads(*old(reader), *final(reader), r, spec_rar_signature(old(reader).remaining())),
        window_left(|s: Seq<u8>| spec_rar_signature(s), *old(reader), *final(reader)),
{
    let r = reader.exec_nom_parser(SignatureBlock::parse);
    proof {
        let parser = |s: Seq<u8>| spec_rar_signature(s);
        let (k, win, res) = choose|
            k: nat,
            win: &[u8],
            res: Result<(&[u8], SignatureBlock), ParseError>,
        | ran_parser(SignatureBlock::parse, *old(reader), *reader, r, k, win, res);
        assert forall|s: Seq<u8>, t: Seq<u8>| s.is_prefix_of(t) implies #[trigger] carries(
            parser(s),
            parser(t),
        ) by {
            lemma_rar_signature_stable(s, t);
        }
        lemma_run_decides(SignatureBlock::parse, parser, *old(reader), *reader, r, k, win, res);
    }
    r
}

/// Reads the main archive block.
pub fn read_archive(reader: &mut RarReader) -> (r: Result<ArchiveBlock, RarError>)
    ensures
        reads(*old(reader), *final(reader), r, spec_archive(old(reader).remaining())),
        window_left(|s: Seq<u8>| spec_archive(s), *old(reader), *final(reader)),
{
    let r = reader.exec_nom_parser(ArchiveBlock::parse);
    proof {
        let parser = |s: Seq<u8>| spec_archive(s);
        let (k, win, res) = choose|
            k: nat,
            win: &[u8],
            res: Result<(&[u8], ArchiveBlock), ParseError>,
        | ran_parser(ArchiveBlock::parse, *old(reader), *reader, r, k, win, res);
        assert forall|s: Seq<u8>, t: Seq<u8>| s.is_prefix_of(t) implies #[trigger] carries(
            parser(s),
            parser(t),
        ) by {
            lemma_archive_stable(s, t);
        }
        lemma_run_decides(ArchiveBlock::parse, parser, *old(reader), *reader, r, k, win, res);
    }
    r
}

/// Reads a file or service block.
pub fn read_file(reader: &mut RarReader) -> (r: Result<FileBlock, RarError>)
    ensures
        reads_view(*old(reader), *final(reader), r, spec_file(old(reader).remaining())),
        window_left(|s: Seq<u8>| spec_file(s), *old(reader), *final(reader)),
{
    let r = reader.exec_nom_parser(FileBlock::parse);
    proof {
        let parser = |s: Seq<u8>| spec_file(s);
        let (k, win, res) = choose|k: nat, win: &[u8], res: Result<(&[u8], FileBlock), ParseError>|
            ran_parser(FileBlock::parse, *old(reader), *reader, r, k, win, res);
        assert forall|s: Seq<u8>, t: Seq<u8>| s.is_prefix_of(t) implies #[trigger] carries(
            parser(s),
            parser(t),
        ) by {
            lemma_file_stable(s, t);
        }
        lemma_run_decides_view(FileBlock::parse, parser, *old(reader), *reader, r, k, win, res);
    }
    r
}

/// Reads the end block.
pub fn read_end(reader: &mut RarReader) -> (r: Result<EndBlock, RarError>)
    ensures
        reads(*old(reader), *final(reader), r, spec_end_block(old(reader).remaining())),
        window_left(|s: Seq<u8>| spec_end_block(s), *old(reader), *final(reader)),
{
    let r = reader.exec_nom_parser(EndBlock::parse);
    proof {
        let parser = |s: Seq<u8>| spec_end_block(s);
        let (k, win, res) = choose|k: nat, win: &[u8], res: Result<(&[u8], EndBlock), ParseError>|
            ran_parser(EndBlock::parse, *old(reader), *reader, r, k, win, res);
        assert forall|s: Seq<u8>, t: Seq<u8>| s.is_prefix_of(t) implies #[trigger] carries(
            parser(s),
            parser(t),
        ) by {
            lemma_end_block_stable(s, t);
        }
        lemma_run_decides(EndBlock::parse, parser, *old(reader), *reader, r, k, win, res);
    }
    r
}

/// Reads a block header of any type.
pub fn read_header(reader: &mut RarReader) -> (r: Result<Header, RarError>)
    ensures
        reads(*old(reader), *final(reader), r, spec_header(old(reader).remaining())),
        window_left(|s: Seq<u8>| spec_header(s), *old(reader), *final(reader)),
{
    let r = reader.exec_nom_parser(header);
    proof {
        let parser = |s: Seq<u8>| spec_header(s);
        let (k, win, res) = choose|k: nat, win: &[u8], res: Result<(&[u8], Header), ParseError>|
            ran_parser(header, *old(reader), *reader, r, k, win, res);
        assert forall|s: Seq<u8>, t: Seq<u8>| s.is_prefix_of(t) implies #[trigger] carries(
            parser(s),
            parser(t),
        ) by {
            lemma_header_stable(s, t);
        }
        lemma_run_decides(header, parser, *old(reader), *reader, r, k, win, res);
    }
    r
}

/// The outcome of [`spec_block`] with the bytes that follow the header
/// counted in 128 bits, as the parser hands them back.
pub open spec fn spec_block_counted(s: Seq<u8>) -> Parsed<(Header, u128)> {
    match spec_block(s) {
        Ok((n, (head, rest))) => Ok((n, (head, rest as u128))),
        Err(e) => Err(e),
    }
}

/// Reads a block header of any type, with the number of bytes of the
/// block that follow it.
pub fn read_block(reader: &mut RarReader) -> (r: Result<(Header, u128), RarError>)
    ensures
        final(reader).stream() == old(reader).stream(),
        final(reader).in_bounds(),
        match spec_block(old(reader).remaining()) {
            Ok((n, (head, rest))) => {
                &&& r matches Ok((h, m))
                &&& h == head
                &&& m == rest
                &&& n <= old(reader).remaining().len()
                &&& final(reader).position() == old(reader).position() + n
                &&& final(reader).remaining() == old(reader).remaining().skip(n as int)
            },
            Err(e) => {
                &&& r matches Err(e2)
                &&& e2 == surfaced(e)
                &&& final(reader).position() == old(reader).position()
            },
        },
        window_left(|s: Seq<u8>| spec_block_counted(s), *old(reader), *final(reader)),
{
    let r = reader.exec_nom_parser(block);
    proof {
        let parser = |s: Seq<u8>| spec_block_counted(s);
        let (k, win, res) = choose|
            k: nat,
            win: &[u8],
            res: Result<(&[u8], (Header, u128)), ParseError>,
        | ran_parser(block, *old(reader), *reader, r, k, win, res);
        assert forall|s: Seq<u8>, t: Seq<u8>| s.is_prefix_of(t) implies #[trigger] carries(
            parser(s),
            parser(t),
        ) by {
            lemma_block_stable(s, t);
        }
        assert forall|w: &[u8], x: Result<(&[u8], (Header, u128)), ParseError>| #[trigger]
            call_ensures(block, (w,), x) implies parses_as(w@, x, parser(w@)) by {
            lemma_block_bounded(w@);
        }
        lemma_run_decides(block, parser, *old(reader), *reader, r, k, win, res);
        lemma_block_bounded(old(reader).remaining());
    }
    r
}

} // verus!

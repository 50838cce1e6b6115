//! The archive as a whole: the scan over the blocks of a volume, which
//! extracts the selected members and follows them into further volumes.

use vstd::prelude::*;
use vstd::slice::slice_to_vec;
use crate::archive_block::{ArchiveBlock, spec_archive};
use crate::blocks::{read_archive, read_block, read_end, read_file, read_signature};
use crate::end_block::{EndBlock, spec_end_block};
use crate::error::{ParseError, RarError, surfaced};
use crate::extractor::{
    continue_data_next_file, extract, extracted, lemma_output_bounded, spec_continuation,
};
use crate::file_block::{FileBlock, FileBlockView, lemma_file_extent, spec_file};
use crate::file_writer::FileWriter;
use crate::header::{Typ, lemma_block_extent, spec_block};
use crate::rar_reader::RarReader;
use crate::sig_block::{SignatureBlock, spec_rar_signature};
use crate::util::bytes_eq;

verus! {

/// A parsed archive.
#[derive(PartialEq, Eq, Debug, Clone)]
pub struct Archive {
    /// The format that the signature announces.
    pub version: SignatureBlock,
    /// The main archive block of the first volume.
    pub details: ArchiveBlock,
    /// The members, in the order in which their blocks stand.
    pub files: Vec<FileBlock>,
    /// The quick-open index, where the archive has one.
    pub quick_open: Option<FileBlock>,
    /// The end block of the volume in which the scan ended.
    pub end: EndBlock,
}

/// Mathematical content of an [`Archive`].
pub struct ArchiveView {
    pub version: SignatureBlock,
    pub details: ArchiveBlock,
    pub files: Seq<FileBlockView>,
    pub quick_open: Option<FileBlockView>,
    pub end: EndBlock,
}

/// The views of a sequence of file blocks.
pub open spec fn file_views(files: Seq<FileBlock>) -> Seq<FileBlockView> {
    Seq::new(files.len(), |i: int| files[i]@)
}

/// The view of an optional file block.
pub open spec fn optional_file_view(file: Option<FileBlock>) -> Option<FileBlockView> {
    match file {
        Some(f) => Some(f@),
        None => None,
    }
}

impl View for Archive {
    type V = ArchiveView;

    open spec fn view(&self) -> ArchiveView {
        ArchiveView {
            version: self.version,
            details: self.details,
            files: file_views(self.files@),
            quick_open: optional_file_view(self.quick_open),
            end: self.end,
        }
    }
}

/// Which members are extracted.
#[derive(PartialEq, Eq, Debug, Clone)]
pub enum Selection {
    /// No member: the blocks are read and every data area is passed over.
    Nothing,
    /// Every file that is not a directory.
    Everything,
    /// The files of the given name.
    Named(Vec<u8>),
}

/// Mathematical content of a [`Selection`].
pub enum SelectionView {
    Nothing,
    Everything,
    Named(Seq<u8>),
}

impl View for Selection {
    type V = SelectionView;

    open spec fn view(&self) -> SelectionView {
        match self {
            Selection::Nothing => SelectionView::Nothing,
            Selection::Everything => SelectionView::Everything,
            Selection::Named(name) => SelectionView::Named(name@),
        }
    }
}

/// The name of the quick-open index: the two letters `QO`.
pub open spec fn quick_open_name() -> Seq<u8> {
    seq![0x51u8, 0x4Fu8]
}

/// Whether `selection` asks for the member `file`. Only file blocks that are
/// not directories are ever extracted.
pub open spec fn selects(selection: SelectionView, file: FileBlockView) -> bool {
    &&& file.head.typ == Typ::File
    &&& !file.flags.directory
    &&& match selection {
        SelectionView::Nothing => false,
        SelectionView::Everything => true,
        SelectionView::Named(name) => file.name == name,
    }
}

/// What was written for one member.
pub struct Written {
    pub member: FileBlockView,
    pub bytes: Seq<u8>,
}

/// What a sink holds, and for which member.
pub open spec fn written_view(sink: FileWriter) -> Written {
    Written { member: sink.member(), bytes: sink.written() }
}

/// What a sequence of sinks holds.
pub open spec fn written_views(sinks: Seq<FileWriter>) -> Seq<Written> {
    Seq::new(sinks.len(), |i: int| written_view(sinks[i]))
}

/// The bytes of a sequence of volumes.
pub open spec fn volume_views(volumes: Seq<Vec<u8>>) -> Seq<Seq<u8>> {
    Seq::new(volumes.len(), |i: int| volumes[i]@)
}

/// The archive and the content of the extracted members, one sink for each
/// in the order of their blocks.
pub struct Extraction {
    pub archive: Archive,
    pub written: Vec<FileWriter>,
}

/// How far an operation came with the volumes it was given.
pub enum Progress {
    /// The archive was read to its end.
    Done(Extraction),
    /// A member continues in the volume of the given number, counted from
    /// zero, which was not among the volumes given.
    NeedVolume(usize),
}

/// Abstract counterpart of [`Progress`] and of the steps that lead to it.
pub enum Scanned<T> {
    Done(T),
    NeedVolume(nat),
}

/// A member whose data stream has been reassembled: the stream that starts
/// with its data, its file block in the last volume, the number of the next
/// volume, and the size of the reassembled data area.
pub struct Member {
    pub stream: Seq<u8>,
    pub file: FileBlockView,
    pub number: nat,
    pub size: nat,
}

/// The number of volumes from `number` on.
pub open spec fn volumes_left(volumes: Seq<Seq<u8>>, number: nat) -> nat {
    if number <= volumes.len() {
        (volumes.len() - number) as nat
    } else {
        0
    }
}

/// Follows a member into the volumes from `number` on, for as long as its
/// file block says that the data continues: the data of each further volume
/// is chained behind `stream`, and its data area is added to `size`.
pub open spec fn spec_chain(
    stream: Seq<u8>,
    file: FileBlockView,
    volumes: Seq<Seq<u8>>,
    number: nat,
    size: nat,
) -> Result<Scanned<Member>, RarError>
    decreases volumes_left(volumes, number),
{
    if !file.head.flags.data_next {
        Ok(Scanned::Done(Member { stream, file, number, size }))
    } else if number >= volumes.len() {
        Ok(Scanned::NeedVolume(number))
    } else {
        match spec_continuation(volumes[number as int], file.name, number) {
            Err(e) => Err(e),
            Ok(c) => if size + c.file.head.data_area_size > u64::MAX {
                Err(RarError::ParseFailed)
            } else {
                spec_chain(
                    stream + c.stream,
                    c.file,
                    volumes,
                    number + 1,
                    size + (c.file.head.data_area_size as nat),
                )
            },
        }
    }
}

/// The reassembled member whose file block `file` has just been read, with
/// `after` remaining of the stream. A member that continues in the next
/// volume owns the rest of its volume's stream, cut to its data area.
pub open spec fn spec_member(
    after: Seq<u8>,
    file: FileBlockView,
    volumes: Seq<Seq<u8>>,
    number: nat,
) -> Result<Scanned<Member>, RarError> {
    let size = file.head.data_area_size as nat;
    if file.head.flags.data_next {
        if size > after.len() {
            Err(RarError::Truncated)
        } else {
            spec_chain(after.take(size as int), file, volumes, number, size)
        }
    } else {
        Ok(Scanned::Done(Member { stream: after, file, number, size }))
    }
}

/// What a scan has gathered when it ends.
pub struct ScanEnd {
    pub files: Seq<FileBlockView>,
    pub quick_open: Option<FileBlockView>,
    pub end: EndBlock,
    pub written: Seq<Written>,
}

/// The end of a scan: the end block must stand at the front of `stream`.
pub open spec fn spec_finish(
    stream: Seq<u8>,
    files: Seq<FileBlockView>,
    quick_open: Option<FileBlockView>,
    written: Seq<Written>,
) -> Result<Scanned<ScanEnd>, RarError> {
    match spec_end_block(stream) {
        Err(e) => Err(surfaced(e)),
        Ok((_, end)) => Ok(Scanned::Done(ScanEnd { files, quick_open, end, written })),
    }
}

/// The size of the block at the front of `stream`, where that is a block
/// of unknown type that asks to be skipped.
pub open spec fn spec_skip(stream: Seq<u8>) -> Option<nat> {
    match spec_block(stream) {
        Ok((n, (head, rest))) => if head.typ == Typ::Unknown && head.flags.skip {
            Some(n + rest)
        } else {
            None
        },
        Err(_) => None,
    }
}

/// The scan over the blocks at the front of `stream`.
///
/// A file block named as the quick-open index is recorded, its data is
/// passed over, and the scan ends. Any other file block is followed into
/// further volumes, extracted if selected and passed over if not, and
/// listed. A block of unknown type that asks for it is skipped. Anything
/// else ends the scan.
pub open spec fn spec_scan(
    stream: Seq<u8>,
    volumes: Seq<Seq<u8>>,
    number: nat,
    selection: SelectionView,
    pwd: Seq<u8>,
    files: Seq<FileBlockView>,
    written: Seq<Written>,
) -> Result<Scanned<ScanEnd>, RarError>
    decreases volumes_left(volumes, number), stream.len(),
{
    match spec_file(stream) {
        Ok((n, f)) => {
            let after = stream.skip(n as int);
            if f.name == quick_open_name() {
                if f.head.data_area_size > after.len() {
                    Err(RarError::Truncated)
                } else {
                    spec_finish(after.skip(f.head.data_area_size as int), files, Some(f), written)
                }
            } else {
                match spec_member(after, f, volumes, number) {
                    Err(e) => Err(e),
                    Ok(Scanned::NeedVolume(k)) => Ok(Scanned::NeedVolume(k)),
                    Ok(Scanned::Done(m)) => {
                        proof {
                            lemma_file_extent(stream);
                            lemma_member_progress(after, f, volumes, number);
                        }
                        if m.size > m.stream.len() {
                            Err(RarError::Truncated)
                        } else if selects(selection, m.file) {
                            match extracted(m.file, m.stream.take(m.size as int), pwd) {
                                Err(e) => Err(e),
                                Ok(bytes) => spec_scan(
                                    m.stream.skip(m.size as int),
                                    volumes,
                                    m.number,
                                    selection,
                                    pwd,
                                    files.push(m.file),
                                    written.push(Written { member: m.file, bytes }),
                                ),
                            }
                        } else {
                            spec_scan(
                                m.stream.skip(m.size as int),
                                volumes,
                                m.number,
                                selection,
                                pwd,
                                files.push(m.file),
                                written,
                            )
                        }
                    },
                }
            }
        },
        Err(e) => match spec_skip(stream) {
            Some(total) => if e != ParseError::WrongType {
                spec_finish(stream, files, None, written)
            } else if total > stream.len() {
                Err(RarError::Truncated)
            } else {
                proof {
                    lemma_block_extent(stream);
                }
                spec_scan(
                    stream.skip(total as int),
                    volumes,
                    number,
                    selection,
                    pwd,
                    files,
                    written,
                )
            },
            None => spec_finish(stream, files, None, written),
        },
    }
}

/// Following a member never goes back: it stays in the volume and leaves
/// the stream as it is, or it moves on to a later one of the given volumes.
pub proof fn lemma_chain_progress(
    stream: Seq<u8>,
    file: FileBlockView,
    volumes: Seq<Seq<u8>>,
    number: nat,
    size: nat,
)
    ensures
        spec_chain(stream, file, volumes, number, size) matches Ok(Scanned::Done(m)) ==> {
            &&& number <= m.number
            &&& m.number == number ==> m.stream == stream && m.size == size
            &&& file.head.flags.data_next ==> m.number > number
            &&& m.number > number ==> m.number <= volumes.len()
            &&& !m.file.head.flags.data_next
        },
    decreases volumes_left(volumes, number),
{
    if file.head.flags.data_next && number < volumes.len() {
        if let Ok(c) = spec_continuation(volumes[number as int], file.name, number) {
            if size + c.file.head.data_area_size <= u64::MAX {
                lemma_chain_progress(
                    stream + c.stream,
                    c.file,
                    volumes,
                    number + 1,
                    size + (c.file.head.data_area_size as nat),
                );
            }
        }
    }
}

/// Reassembling a member never goes back; see [`lemma_chain_progress`].
pub proof fn lemma_member_progress(
    after: Seq<u8>,
    file: FileBlockView,
    volumes: Seq<Seq<u8>>,
    number: nat,
)
    ensures
        spec_member(after, file, volumes, number) matches Ok(Scanned::Done(m)) ==> {
            &&& number <= m.number
            &&& m.number == number ==> m.stream == after
            &&& m.number > number ==> m.number <= volumes.len()
            &&& !m.file.head.flags.data_next
        },
{
    let size = file.head.data_area_size as nat;
    if file.head.flags.data_next && size <= after.len() {
        lemma_chain_progress(after.take(size as int), file, volumes, number, size);
    }
}

/// A member that is followed into further volumes keeps its name.
pub proof fn lemma_chain_keeps_name(
    stream: Seq<u8>,
    file: FileBlockView,
    volumes: Seq<Seq<u8>>,
    number: nat,
    size: nat,
)
    ensures
        spec_chain(stream, file, volumes, number, size) matches Ok(Scanned::Done(m))
            ==> m.file.name == file.name,
    decreases volumes_left(volumes, number),
{
    if file.head.flags.data_next && number < volumes.len() {
        if let Ok(c) = spec_continuation(volumes[number as int], file.name, number) {
            reveal(spec_file);
            if size + c.file.head.data_area_size <= u64::MAX {
                lemma_chain_keeps_name(
                    stream + c.stream,
                    c.file,
                    volumes,
                    number + 1,
                    size + (c.file.head.data_area_size as nat),
                );
            }
        }
    }
}

/// The sum of the data areas that the volumes from `number` on hold of the
/// member whose file block `file` was read last.
pub open spec fn continued_total(file: FileBlockView, volumes: Seq<Seq<u8>>, number: nat) -> nat
    decreases volumes_left(volumes, number),
{
    if file.head.flags.data_next && number < volumes.len() {
        match spec_continuation(volumes[number as int], file.name, number) {
            Ok(c) => c.file.head.data_area_size as nat + continued_total(
                c.file,
                volumes,
                number + 1,
            ),
            Err(_) => 0,
        }
    } else {
        0
    }
}

/// The data areas that the volumes from `number` on hold of the member
/// whose file block `file` was read last, one after the other.
pub open spec fn continued_data(file: FileBlockView, volumes: Seq<Seq<u8>>, number: nat) -> Seq<
    u8,
>
    decreases volumes_left(volumes, number),
{
    if file.head.flags.data_next && number < volumes.len() {
        match spec_continuation(volumes[number as int], file.name, number) {
            Ok(c) => c.stream.take(c.file.head.data_area_size as int) + continued_data(
                c.file,
                volumes,
                number + 1,
            ),
            Err(_) => Seq::empty(),
        }
    } else {
        Seq::empty()
    }
}

/// Following a member through its volumes adds up their data areas and
/// chains their data in volume order: where the stream so far starts with
/// `size` bytes of data, and is nothing but that data if the member goes on,
/// the reassembled stream starts with that data followed by the data areas
/// of the further volumes, and the running total is their sum.
pub proof fn lemma_chain_total(
    stream: Seq<u8>,
    file: FileBlockView,
    volumes: Seq<Seq<u8>>,
    number: nat,
    size: nat,
)
    requires
        size <= stream.len(),
        file.head.flags.data_next ==> stream.len() == size,
    ensures
        spec_chain(stream, file, volumes, number, size) matches Ok(Scanned::Done(m)) ==> {
            &&& m.size == size + continued_total(file, volumes, number)
            &&& m.size <= m.stream.len()
            &&& m.stream.take(m.size as int) == stream.take(size as int) + continued_data(
                file,
                volumes,
                number,
            )
        },
    decreases volumes_left(volumes, number),
{
    if !file.head.flags.data_next {
        assert(stream.take(size as int) + Seq::<u8>::empty() =~= stream.take(size as int));
    } else if number < volumes.len() {
        if let Ok(c) = spec_continuation(volumes[number as int], file.name, number) {
            let area = c.file.head.data_area_size as nat;
            let total = size + area;
            if total <= u64::MAX {
                let longer = stream + c.stream;
                lemma_chain_total(longer, c.file, volumes, number + 1, total);
                if let Ok(Scanned::Done(m)) = spec_chain(
                    longer,
                    c.file,
                    volumes,
                    number + 1,
                    total,
                ) {
                    assert(longer.take(total as int) =~= stream + c.stream.take(area as int));
                    assert(stream.take(size as int) =~= stream);
                    assert((stream + c.stream.take(area as int)) + continued_data(
                        c.file,
                        volumes,
                        number + 1,
                    ) =~= stream + (c.stream.take(area as int) + continued_data(
                        c.file,
                        volumes,
                        number + 1,
                    )));
                }
            }
        }
    }
}

/// For every member whose data is there in full, the sum of the data areas
/// of its volumes is the size of the data that the decryption reader is
/// given, and that data is the data areas in volume order.
pub proof fn lemma_member_total(
    after: Seq<u8>,
    file: FileBlockView,
    volumes: Seq<Seq<u8>>,
    number: nat,
)
    ensures
        spec_member(after, file, volumes, number) matches Ok(Scanned::Done(m)) ==> (m.size
            <= m.stream.len() ==> {
            let first = file.head.data_area_size as nat;
            let data = m.stream.take(m.size as int);
            &&& m.size == first + continued_total(file, volumes, number)
            &&& data.len() == m.size
            &&& data == after.take(first as int) + continued_data(file, volumes, number)
        }),
{
    let first = file.head.data_area_size as nat;
    if file.head.flags.data_next {
        if first <= after.len() {
            lemma_chain_total(after.take(first as int), file, volumes, number, first);
            assert(after.take(first as int).take(first as int) =~= after.take(first as int));
        }
    } else {
        assert(after.take(first as int) + Seq::<u8>::empty() =~= after.take(first as int));
    }
}

/// A member that is none named as the quick-open index is listed, its data
/// is extracted where it is selected and passed over where it is not, and
/// the scan goes on behind its data.
pub proof fn lemma_member_is_listed(
    stream: Seq<u8>,
    volumes: Seq<Seq<u8>>,
    number: nat,
    selection: SelectionView,
    pwd: Seq<u8>,
    files: Seq<FileBlockView>,
    written: Seq<Written>,
)
    requires
        spec_file(stream) matches Ok((n, f)) && f.name != quick_open_name() && (spec_member(
            stream.skip(n as int),
            f,
            volumes,
            number,
        ) matches Ok(Scanned::Done(m)) && m.size <= m.stream.len()),
    ensures
        ({
            let (n, f) = spec_file(stream).unwrap();
            let m = spec_member(stream.skip(n as int), f, volumes, number).unwrap()->Done_0;
            let rest = m.stream.skip(m.size as int);
            let more = files.push(m.file);
            spec_scan(stream, volumes, number, selection, pwd, files, written) == if selects(
                selection,
                m.file,
            ) {
                match extracted(m.file, m.stream.take(m.size as int), pwd) {
                    Err(e) => Err(e),
                    Ok(bytes) => spec_scan(
                        rest,
                        volumes,
                        m.number,
                        selection,
                        pwd,
                        more,
                        written.push(Written { member: m.file, bytes }),
                    ),
                }
            } else {
                spec_scan(rest, volumes, m.number, selection, pwd, more, written)
            }
        }),
{
}

/// A file block named as the quick-open index ends the scan: it is
/// recorded as such, and neither listed among the members nor extracted.
pub proof fn lemma_quick_open_ends_scan(
    stream: Seq<u8>,
    volumes: Seq<Seq<u8>>,
    number: nat,
    selection: SelectionView,
    pwd: Seq<u8>,
    files: Seq<FileBlockView>,
    written: Seq<Written>,
)
    requires
        spec_file(stream) matches Ok((n, f)) && f.name == quick_open_name()
            && f.head.data_area_size <= stream.len() - n,
    ensures
        ({
            let (n, f) = spec_file(stream).unwrap();
            spec_scan(stream, volumes, number, selection, pwd, files, written) == spec_finish(
                stream.skip(n as int).skip(f.head.data_area_size as int),
                files,
                Some(f),
                written,
            )
        }),
        spec_scan(stream, volumes, number, selection, pwd, files, written) matches Ok(
            Scanned::Done(s),
        ) ==> s.files == files && s.written == written && s.quick_open == Some(
            spec_file(stream).unwrap().1,
        ),
{
    lemma_file_extent(stream);
}

/// What begins with a sequence and one more element begins with the
/// sequence.
pub proof fn lemma_prefix_of_pushed<T>(s: Seq<T>, x: T, t: Seq<T>)
    requires
        s.push(x).is_prefix_of(t),
    ensures
        s.is_prefix_of(t),
{
    assert(s =~= t.subrange(0, s.len() as int)) by {
        assert forall|i: int| 0 <= i < s.len() implies s[i] == t[i] by {
            assert(s.push(x)[i] == t.subrange(0, s.len() as int + 1)[i]);
        }
    }
}

/// A member and what was written for it fit a scan: the member is none
/// named as the quick-open index, it was selected, and no more was written
/// than its unpacked size.
pub open spec fn fits(selection: SelectionView, w: Written) -> bool {
    &&& w.member.name != quick_open_name()
    &&& selects(selection, w.member)
    &&& w.bytes.len() <= w.member.unpacked_size
}

/// Whatever a scan yields, the quick-open index is never among the members
/// nor among what was written, only selected members are written, none of
/// them beyond its unpacked size, and what is recorded as quick-open index
/// is named so. What was listed and written before stays first, in its
/// order: members are listed and written in the order of their blocks.
pub proof fn lemma_scan_written(
    stream: Seq<u8>,
    volumes: Seq<Seq<u8>>,
    number: nat,
    selection: SelectionView,
    pwd: Seq<u8>,
    files: Seq<FileBlockView>,
    written: Seq<Written>,
)
    requires
        forall|i: int| 0 <= i < written.len() ==> fits(selection, #[trigger] written[i]),
        forall|i: int| 0 <= i < files.len() ==> (#[trigger] files[i]).name != quick_open_name(),
    ensures
        spec_scan(stream, volumes, number, selection, pwd, files, written) matches Ok(
            Scanned::Done(s),
        ) ==> {
            &&& forall|i: int| 0 <= i < s.written.len() ==> fits(selection, #[trigger] s.written[i])
            &&& forall|i: int|
                0 <= i < s.files.len() ==> (#[trigger] s.files[i]).name != quick_open_name()
            &&& s.quick_open matches Some(q) ==> q.name == quick_open_name()
            &&& files.is_prefix_of(s.files)
            &&& written.is_prefix_of(s.written)
        },
    decreases volumes_left(volumes, number), stream.len(),
{
    assert(files.is_prefix_of(files));
    assert(written.is_prefix_of(written));
    match spec_file(stream) {
        Ok((n, f)) => {
            let after = stream.skip(n as int);
            if f.name != quick_open_name() {
                if let Ok(Scanned::Done(m)) = spec_member(after, f, volumes, number) {
                    lemma_file_extent(stream);
                    lemma_member_progress(after, f, volumes, number);
                    let size = f.head.data_area_size as nat;
                    if f.head.flags.data_next && size <= after.len() {
                        lemma_chain_keeps_name(after.take(size as int), f, volumes, number, size);
                    }
                    if m.size <= m.stream.len() {
                        let rest = m.stream.skip(m.size as int);
                        let more = files.push(m.file);
                        if selects(selection, m.file) {
                            let data = m.stream.take(m.size as int);
                            if let Ok(bytes) = extracted(m.file, data, pwd) {
                                let longer = written.push(Written { member: m.file, bytes });
                                lemma_output_bounded(m.file, data, pwd);
                                lemma_scan_written(
                                    rest,
                                    volumes,
                                    m.number,
                                    selection,
                                    pwd,
                                    more,
                                    longer,
                                );
                                if let Ok(Scanned::Done(s)) = spec_scan(
                                    rest,
                                    volumes,
                                    m.number,
                                    selection,
                                    pwd,
                                    more,
                                    longer,
                                ) {
                                    lemma_prefix_of_pushed(files, m.file, s.files);
                                    lemma_prefix_of_pushed(
                                        written,
                                        Written { member: m.file, bytes },
                                        s.written,
                                    );
                                }
                            }
                        } else {
                            lemma_scan_written(
                                rest,
                                volumes,
                                m.number,
                                selection,
                                pwd,
                                more,
                                written,
                            );
                            if let Ok(Scanned::Done(s)) = spec_scan(
                                rest,
                                volumes,
                                m.number,
                                selection,
                                pwd,
                                more,
                                written,
                            ) {
                                lemma_prefix_of_pushed(files, m.file, s.files);
                            }
                        }
                    }
                }
            }
        },
        Err(e) => {
            if let Some(total) = spec_skip(stream) {
                if e == ParseError::WrongType && total <= stream.len() {
                    lemma_block_extent(stream);
                    lemma_scan_written(
                        stream.skip(total as int),
                        volumes,
                        number,
                        selection,
                        pwd,
                        files,
                        written,
                    );
                }
            }
        },
    }
}

/// What an operation on the volumes `volumes` yields: the signature and the
/// main archive block of the first volume, and then the scan of what
/// follows them. Without a first volume, that one is needed.
pub open spec fn spec_extraction(
    volumes: Seq<Seq<u8>>,
    selection: SelectionView,
    pwd: Seq<u8>,
) -> Result<Scanned<(ArchiveView, Seq<Written>)>, RarError> {
    if volumes.len() == 0 {
        Ok(Scanned::NeedVolume(0))
    } else {
        let root = volumes[0];
        match spec_rar_signature(root) {
            Err(e) => Err(surfaced(e)),
            Ok((n0, version)) => match spec_archive(root.skip(n0 as int)) {
                Err(e) => Err(surfaced(e)),
                Ok((n1, details)) => match spec_scan(
                    root.skip((n0 + n1) as int),
                    volumes,
                    1,
                    selection,
                    pwd,
                    Seq::empty(),
                    Seq::empty(),
                ) {
                    Err(e) => Err(e),
                    Ok(Scanned::NeedVolume(k)) => Ok(Scanned::NeedVolume(k)),
                    Ok(Scanned::Done(s)) => Ok(
                        Scanned::Done(
                            (
                                ArchiveView {
                                    version,
                                    details,
                                    files: s.files,
                                    quick_open: s.quick_open,
                                    end: s.end,
                                },
                                s.written,
                            ),
                        ),
                    ),
                },
            },
        }
    }
}

/// The executable result `r` is the image of the abstract result
/// `expected`.
pub open spec fn progress_is(
    r: Result<Progress, RarError>,
    expected: Result<Scanned<(ArchiveView, Seq<Written>)>, RarError>,
) -> bool {
    match expected {
        Err(e) => r matches Err(e2) && e2 == e,
        Ok(Scanned::NeedVolume(k)) => r matches Ok(Progress::NeedVolume(n)) && n == k,
        Ok(Scanned::Done((archive, written))) => {
            &&& r matches Ok(Progress::Done(x))
            &&& x.archive@ == archive
            &&& written_views(x.written@) == written
        },
    }
}

/// A step of an operation that may have to stop for a missing volume.
enum Step<T> {
    Ready(T),
    NeedVolume(usize),
}

/// Follows the member that `file` describes into further volumes.
#[verifier::loop_isolation(false)]
fn reassemble(reader: RarReader, file: FileBlock, volumes: &Vec<Vec<u8>>, file_number: usize) -> (r:
    Result<Step<(RarReader, FileBlock, usize, u64)>, RarError>)
    ensures
        match spec_member(
            reader.remaining(),
            file@,
            volume_views(volumes@),
            file_number as nat,
        ) {
            Err(e) => r matches Err(e2) && e2 == e,
            Ok(Scanned::NeedVolume(k)) => r matches Ok(Step::NeedVolume(n)) && n == k,
            Ok(Scanned::Done(m)) => {
                &&& r matches Ok(Step::Ready((chained, last, number, size)))
                &&& chained.remaining() == m.stream
                &&& chained.in_bounds()
                &&& last@ == m.file
                &&& number == m.number
                &&& size == m.size
            },
        },
{
    let ghost vols = volume_views(volumes@);
    let ghost goal = spec_member(reader.remaining(), file@, vols, file_number as nat);
    let mut chained = reader;
    let mut f = file;
    let mut number = file_number;
    let mut data_area_size = f.head.data_area_size;
    let rest = chained.remaining_len();
    if f.head.flags.data_next {
        if data_area_size > rest as u64 {
            return Err(RarError::Truncated);
        }
        chained = chained.take(data_area_size);
        assert(chained.remaining() =~= chained.stream());
    }
    while f.head.flags.data_next
        invariant
            vols == volume_views(volumes@),
            chained.in_bounds(),
            goal == spec_chain(chained.remaining(), f@, vols, number as nat, data_area_size as nat),
        decreases volumes_left(vols, number as nat),
    {
        let ghost before = chained.remaining();
        let ghost member = f@;
        if number >= volumes.len() {
            assert(goal == Ok::<Scanned<Member>, RarError>(Scanned::NeedVolume(number as nat)));
            return Ok(Step::NeedVolume(number));
        }
        let next = slice_to_vec(volumes[number].as_slice());
        assert(next@ == vols[number as int]);
        let ghost found = spec_continuation(next@, member.name, number as nat);
        let ghost old_number = number as nat;
        let ghost old_size = data_area_size as nat;
        assert(goal == match found {
            Err(e) => Err::<Scanned<Member>, RarError>(e),
            Ok(c) => if old_size + c.file.head.data_area_size > u64::MAX {
                Err(RarError::ParseFailed)
            } else {
                spec_chain(
                    before + c.stream,
                    c.file,
                    vols,
                    old_number + 1,
                    old_size + (c.file.head.data_area_size as nat),
                )
            },
        });
        chained = match continue_data_next_file(
            chained,
            &mut f,
            next,
            &mut number,
            &mut data_area_size,
        ) {
            Ok(longer) => longer,
            Err(e) => {
                return Err(e);
            },
        };
        assert(chained.remaining() =~= chained.stream());
    }
    assert(goal == Ok::<Scanned<Member>, RarError>(
        Scanned::Done(
            Member {
                stream: chained.remaining(),
                file: f@,
                number: number as nat,
                size: data_area_size as nat,
            },
        ),
    ));
    Ok(Step::Ready((chained, f, number, data_area_size)))
}

/// Ends a scan with the end block.
fn finish(
    source: RarReader,
    files: Vec<FileBlock>,
    quick_open: Option<FileBlock>,
    written: Vec<FileWriter>,
) -> (r: Result<(Vec<FileBlock>, Option<FileBlock>, EndBlock, Vec<FileWriter>), RarError>)
    ensures
        match spec_finish(
            source.remaining(),
            file_views(files@),
            optional_file_view(quick_open),
            written_views(written@),
        ) {
            Err(e) => r matches Err(e2) && e2 == e,
            Ok(Scanned::NeedVolume(_)) => false,
            Ok(Scanned::Done(s)) => {
                &&& r matches Ok((all, index, end, sinks))
                &&& file_views(all@) == s.files
                &&& optional_file_view(index) == s.quick_open
                &&& end == s.end
                &&& written_views(sinks@) == s.written
            },
        },
{
    let mut reader = source;
    let end = read_end(&mut reader)?;
    Ok((files, quick_open, end, written))
}

/// Whether a name is that of the quick-open index.
fn is_quick_open(name: &[u8]) -> (r: bool)
    ensures
        r == (name@ == quick_open_name()),
{
    let index: [u8; 2] = [0x51, 0x4F];
    assert(index@ =~= quick_open_name());
    bytes_eq(name, index.as_slice())
}

/// Whether `selection` asks for the member `file`.
fn is_selected(selection: &Selection, file: &FileBlock) -> (r: bool)
    ensures
        r == selects(selection@, file@),
{
    if file.head.typ != Typ::File || file.flags.directory {
        return false;
    }
    match selection {
        Selection::Nothing => false,
        Selection::Everything => true,
        Selection::Named(name) => bytes_eq(file.name.as_slice(), name.as_slice()),
    }
}

/// Scans the blocks that follow the main archive block of the first volume.
#[verifier::loop_isolation(false)]
fn scan(source: RarReader, volumes: &Vec<Vec<u8>>, selection: &Selection, password: &[u8]) -> (r:
    Result<Step<(Vec<FileBlock>, Option<FileBlock>, EndBlock, Vec<FileWriter>)>, RarError>)
    ensures
        match spec_scan(
            source.remaining(),
            volume_views(volumes@),
            1,
            selection@,
            password@,
            Seq::empty(),
            Seq::empty(),
        ) {
            Err(e) => r matches Err(e2) && e2 == e,
            Ok(Scanned::NeedVolume(k)) => r matches Ok(Step::NeedVolume(n)) && n == k,
            Ok(Scanned::Done(s)) => {
                &&& r matches Ok(Step::Ready((all, index, end, sinks)))
                &&& file_views(all@) == s.files
                &&& optional_file_view(index) == s.quick_open
                &&& end == s.end
                &&& written_views(sinks@) == s.written
            },
        },
{
    let ghost vols = volume_views(volumes@);
    let ghost goal = spec_scan(
        source.remaining(),
        vols,
        1,
        selection@,
        password@,
        Seq::empty(),
        Seq::empty(),
    );
    let mut reader = source;
    let mut files: Vec<FileBlock> = Vec::new();
    let mut written: Vec<FileWriter> = Vec::new();
    let mut file_number: usize = 1;
    assert(file_views(files@) =~= Seq::<FileBlockView>::empty());
    assert(written_views(written@) =~= Seq::<Written>::empty());
    loop
        invariant
            vols == volume_views(volumes@),
            goal == spec_scan(
                reader.remaining(),
                vols,
                file_number as nat,
                selection@,
                password@,
                file_views(files@),
                written_views(written@),
            ),
        decreases volumes_left(vols, file_number as nat), reader.remaining().len(),
    {
        let ghost stream = reader.remaining();
        proof {
            lemma_file_extent(stream);
        }
        match read_file(&mut reader) {
            Ok(f) => {
                if is_quick_open(f.name.as_slice()) {
                    reader.r_seek(f.head.data_area_size)?;
                    return match finish(reader, files, Some(f), written) {
                        Ok(done) => Ok(Step::Ready(done)),
                        Err(e) => Err(e),
                    };
                }
                let ghost after = reader.remaining();
                proof {
                    lemma_member_progress(after, f@, vols, file_number as nat);
                }
                let (chained, last, number, size) = match reassemble(
                    reader,
                    f,
                    volumes,
                    file_number,
                )? {
                    Step::Ready(m) => m,
                    Step::NeedVolume(n) => {
                        return Ok(Step::NeedVolume(n));
                    },
                };
                reader = chained;
                file_number = number;
                if is_selected(selection, &last) {
                    let sink = extract(&last, &mut reader, size, password)?;
                    proof {
                        assert(written_views(written@.push(sink)) =~= written_views(
                            written@,
                        ).push(written_view(sink)));
                    }
                    written.push(sink);
                } else {
                    reader.r_seek(size)?;
                }
                proof {
                    assert(file_views(files@.push(last)) =~= file_views(files@).push(last@));
                }
                files.push(last);
            },
            Err(e) => {
                if e == RarError::WrongType {
                    let at = reader.tell();
                    match read_block(&mut reader) {
                        Ok((head, rest)) => {
                            if head.typ == Typ::Unknown && head.flags.skip {
                                proof {
                                    lemma_block_extent(stream);
                                }
                                if rest > reader.remaining_len() as u128 {
                                    return Err(RarError::Truncated);
                                }
                                reader.r_seek(rest as u64)?;
                                proof {
                                    let n = spec_block(stream).unwrap().0;
                                    assert(reader.remaining() =~= stream.skip(
                                        (n + rest) as int,
                                    ));
                                }
                                continue ;
                            }
                            reader.seek_from_start(at as u64)?;
                        },
                        Err(_) => {},
                    }
                }
                return match finish(reader, files, None, written) {
                    Ok(done) => Ok(Step::Ready(done)),
                    Err(e) => Err(e),
                };
            },
        }
    }
}

/// Reads the archive that `volumes` hold and extracts the members that
/// `selection` asks for.
fn run(volumes: &Vec<Vec<u8>>, selection: &Selection, password: &[u8]) -> (r: Result<
    Progress,
    RarError,
>)
    ensures
        progress_is(r, spec_extraction(volume_views(volumes@), selection@, password@)),
{
    broadcast use vstd::seq_lib::lemma_seq_skip_of_skip;

    if volumes.len() == 0 {
        return Ok(Progress::NeedVolume(0));
    }
    let mut reader = RarReader::new(slice_to_vec(volumes[0].as_slice()));
    assert(reader.remaining() =~= volume_views(volumes@)[0]);
    let version = read_signature(&mut reader)?;
    let details = read_archive(&mut reader)?;
    match scan(reader, volumes, selection, password)? {
        Step::NeedVolume(n) => Ok(Progress::NeedVolume(n)),
        Step::Ready((files, quick_open, end, written)) => Ok(
            Progress::Done(
                Extraction { archive: Archive { version, details, files, quick_open, end }, written },
            ),
        ),
    }
}

impl Archive {
    /// Reads the blocks of the archive without extracting any member: the
    /// data areas are passed over.
    pub fn parse(volumes: &Vec<Vec<u8>>) -> (r: Result<Progress, RarError>)
        ensures
            progress_is(
                r,
                spec_extraction(volume_views(volumes@), SelectionView::Nothing, Seq::empty()),
            ),
    {
        let password: [u8; 0] = [];
        assert(password@ =~= Seq::<u8>::empty());
        run(volumes, &Selection::Nothing, password.as_slice())
    }

    /// Extracts every file that is not a directory, decrypting with
    /// `password` where a member is encrypted.
    pub fn extract_all(volumes: &Vec<Vec<u8>>, password: &[u8]) -> (r: Result<Progress, RarError>)
        ensures
            progress_is(
                r,
                spec_extraction(volume_views(volumes@), SelectionView::Everything, password@),
            ),
    {
        run(volumes, &Selection::Everything, password)
    }

    /// Extracts the files called `name`, decrypting with `password` where
    /// one is encrypted.
    pub fn extract_one(volumes: &Vec<Vec<u8>>, name: &[u8], password: &[u8]) -> (r: Result<
        Progress,
        RarError,
    >)
        ensures
            progress_is(
                r,
                spec_extraction(volume_views(volumes@), SelectionView::Named(name@), password@),
            ),
    {
        let selection = Selection::Named(slice_to_vec(name));
        run(volumes, &selection, password)
    }
}

} // verus!

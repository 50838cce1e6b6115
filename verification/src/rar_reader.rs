//! The buffered stream reader: a window over the front of a byte stream,
//! from which parsers take what they accept.

use vstd::prelude::*;
use vstd::slice::{slice_subrange, slice_to_vec};
use crate::error::{ParseError, RarError};

verus! {

/// The number of bytes by which the window grows when it is refilled.
pub const BUFFER_SIZE: usize = 8192;

/// A reader over a byte stream, with a window of buffered bytes that starts
/// at the current position.
pub struct RarReader {
    source: Vec<u8>,
    pos: usize,
    filled: usize,
}

/// An earlier name of the reader.
pub type DataBuffer = RarReader;

/// What a parser's result on a window of `n` bytes does to a reader, and
/// what the reader hands back: a value moves the position past the accepted
/// bytes; a failure leaves the position and surfaces as a stream error. A
/// parser may fail as incomplete only on a window that holds all remaining
/// bytes. A remainder longer than the window counts as a failed parse.
pub open spec fn parser_step<D>(
    before: RarReader,
    after: RarReader,
    n: int,
    res: Result<(&[u8], D), ParseError>,
    r: Result<D, RarError>,
) -> bool {
    match res {
        Ok((rest, d)) => if rest@.len() <= n {
            &&& r matches Ok(x)
            &&& x == d
            &&& after.position() == before.position() + n - rest@.len()
            &&& after.window_len() == rest@.len()
        } else {
            &&& r matches Err(e)
            &&& e == RarError::ParseFailed
            &&& after.position() == before.position()
            &&& after.window_len() == n
        },
        Err(ParseError::Incomplete) => {
            &&& n == before.remaining().len()
            &&& r matches Err(e)
            &&& e == RarError::Truncated
            &&& after.position() == before.position()
            &&& after.window_len() == n
        },
        Err(ParseError::Malformed) => {
            &&& r matches Err(e)
            &&& e == RarError::ParseFailed
            &&& after.position() == before.position()
            &&& after.window_len() == n
        },
        Err(ParseError::WrongType) => {
            &&& r matches Err(e)
            &&& e == RarError::WrongType
            &&& after.position() == before.position()
            &&& after.window_len() == n
        },
    }
}

/// The size of a window of `window` bytes over `remaining` bytes after `k`
/// refills: each refill adds [`BUFFER_SIZE`] bytes, or what is left if that
/// is less.
pub open spec fn refilled(window: nat, remaining: nat, k: nat) -> nat
    decreases k,
{
    if k == 0 {
        window
    } else {
        let before = refilled(window, remaining, (k - 1) as nat);
        if remaining - before < BUFFER_SIZE {
            remaining
        } else {
            before + BUFFER_SIZE as nat
        }
    }
}

/// The parser `func` answered that the first `n` bytes of `all` are
/// incomplete.
pub open spec fn found_incomplete<F, D>(func: F, all: Seq<u8>, n: nat) -> bool where
    F: Fn(&[u8]) -> Result<(&[u8], D), ParseError>,
 {
    exists|win: &[u8], res: Result<(&[u8], D), ParseError>| #[trigger]
        call_ensures(func, (win,), res) && win@ == all.take(n as int) && res
            == Err::<(&[u8], D), ParseError>(ParseError::Incomplete)
}

/// The reader went from `before` to `after` handing back `r` by running
/// `func` on the buffered window and then on the window after each of `k`
/// refills: on every window but the last the parser answered incomplete,
/// and on the last, `win`, it answered `res`, which decided as
/// [`parser_step`] says.
pub open spec fn ran_parser<F, D>(
    func: F,
    before: RarReader,
    after: RarReader,
    r: Result<D, RarError>,
    k: nat,
    win: &[u8],
    res: Result<(&[u8], D), ParseError>,
) -> bool where F: Fn(&[u8]) -> Result<(&[u8], D), ParseError> {
    let all = before.remaining();
    let n = refilled(before.window_len(), all.len(), k);
    &&& forall|j: nat|
        j < k ==> found_incomplete(
            func,
            all,
            #[trigger] refilled(before.window_len(), all.len(), j),
        )
    &&& before.window_len() <= n <= all.len()
    &&& win@ == all.take(n as int)
    &&& call_ensures(func, (win,), res)
    &&& parser_step(before, after, n as int, res, r)
}

impl RarReader {
    /// The window starts at the position and ends within the stream.
    #[verifier::type_invariant]
    spec fn well_formed(self) -> bool {
        self.pos <= self.filled <= self.source@.len()
    }

    /// All bytes of the stream, consumed or not.
    pub closed spec fn stream(self) -> Seq<u8> {
        self.source@
    }

    /// The number of bytes consumed so far.
    pub closed spec fn position(self) -> nat {
        self.pos as nat
    }

    /// The number of bytes buffered at the position.
    pub closed spec fn window_len(self) -> nat {
        (self.filled - self.pos) as nat
    }

    /// The position and the window lie within the stream.
    pub open spec fn in_bounds(self) -> bool {
        self.position() + self.window_len() <= self.stream().len()
    }

    /// The bytes of the stream that are not consumed yet.
    pub open spec fn remaining(self) -> Seq<u8> {
        self.stream().skip(self.position() as int)
    }

    /// The buffered bytes: a prefix of what remains.
    pub open spec fn window(self) -> Seq<u8> {
        self.remaining().take(self.window_len() as int)
    }

    /// A reader at the start of `data`, with a first window buffered.
    pub fn new(data: Vec<u8>) -> (r: RarReader)
        ensures
            r.stream() == data@,
            r.position() == 0,
            r.window_len() == if data@.len() < BUFFER_SIZE {
                data@.len()
            } else {
                BUFFER_SIZE as nat
            },
            r.in_bounds(),
    {
        let filled = if data.len() < BUFFER_SIZE {
            data.len()
        } else {
            BUFFER_SIZE
        };
        RarReader { source: data, pos: 0, filled }
    }

    /// The number of bytes consumed so far.
    pub fn tell(&self) -> (r: usize)
        ensures
            r == self.position(),
            self.in_bounds(),
    {
        proof {
            use_type_invariant(self);
        }
        self.pos
    }

    /// The number of bytes of the whole stream.
    pub fn len(&self) -> (r: usize)
        ensures
            r == self.stream().len(),
            self.in_bounds(),
    {
        proof {
            use_type_invariant(self);
        }
        self.source.len()
    }

    /// The number of bytes that are not consumed yet.
    pub fn remaining_len(&self) -> (r: usize)
        ensures
            r == self.remaining().len(),
            self.in_bounds(),
    {
        proof {
            use_type_invariant(self);
        }
        self.source.len() - self.pos
    }

    /// The buffered bytes.
    pub fn peek(&self) -> (r: &[u8])
        ensures
            r@ == self.window(),
            self.in_bounds(),
    {
        proof {
            use_type_invariant(self);
        }
        let r = slice_subrange(self.source.as_slice(), self.pos, self.filled);
        assert(r@ =~= self.window());
        r
    }

    /// Grows the window by up to [`BUFFER_SIZE`] bytes of the stream.
    pub fn refill(&mut self)
        ensures
            final(self).stream() == old(self).stream(),
            final(self).position() == old(self).position(),
            final(self).window_len() == if old(self).remaining().len() - old(self).window_len()
                < BUFFER_SIZE {
                old(self).remaining().len() as int
            } else {
                old(self).window_len() + BUFFER_SIZE
            },
            final(self).in_bounds(),
    {
        proof {
            use_type_invariant(&*self);
        }
        let rest = self.source.len() - self.filled;
        if rest < BUFFER_SIZE {
            self.filled = self.source.len();
        } else {
            self.filled = self.filled + BUFFER_SIZE;
        }
    }

    /// Buffers bytes when the window is empty, and returns the window. The
    /// window is empty afterwards only at the end of the stream.
    pub fn fill_buf(&mut self) -> (r: &[u8])
        ensures
            final(self).stream() == old(self).stream(),
            final(self).position() == old(self).position(),
            r@ == final(self).window(),
            final(self).window_len() == if old(self).window_len() > 0 {
                old(self).window_len()
            } else if old(self).remaining().len() < BUFFER_SIZE {
                old(self).remaining().len()
            } else {
                BUFFER_SIZE as nat
            },
            final(self).in_bounds(),
    {
        proof {
            use_type_invariant(&*self);
        }
        if self.filled == self.pos {
            self.refill();
        }
        self.peek()
    }

    /// Moves the position `amt` bytes into the window.
    pub fn consume(&mut self, amt: usize)
        requires
            amt <= old(self).window_len(),
        ensures
            final(self).stream() == old(self).stream(),
            final(self).position() == old(self).position() + amt,
            final(self).window_len() == old(self).window_len() - amt,
            final(self).remaining() == old(self).remaining().skip(amt as int),
            final(self).in_bounds(),
    {
        broadcast use vstd::seq_lib::lemma_seq_skip_of_skip;

        proof {
            use_type_invariant(&*self);
        }
        self.pos = self.pos + amt;
    }

    /// Moves the position forward by `amt` bytes, whether buffered or not.
    /// Fails as truncated, without moving, when fewer bytes remain.
    pub fn r_seek(&mut self, amt: u64) -> (r: Result<(), RarError>)
        ensures
            final(self).stream() == old(self).stream(),
            final(self).in_bounds(),
            match r {
                Ok(_) => {
                    &&& amt <= old(self).remaining().len()
                    &&& final(self).position() == old(self).position() + amt
                    &&& final(self).remaining() == old(self).remaining().skip(amt as int)
                    &&& final(self).window_len() == if amt <= old(self).window_len() {
                        old(self).window_len() - amt
                    } else {
                        0
                    }
                },
                Err(e) => {
                    &&& e == RarError::Truncated
                    &&& amt > old(self).remaining().len()
                    &&& final(self).position() == old(self).position()
                    &&& final(self).window_len() == old(self).window_len()
                },
            },
    {
        broadcast use vstd::seq_lib::lemma_seq_skip_of_skip;

        proof {
            use_type_invariant(&*self);
        }
        if amt > (self.source.len() - self.pos) as u64 {
            return Err(RarError::Truncated);
        }
        let target = self.pos + amt as usize;
        if self.filled < target {
            self.filled = target;
        }
        self.pos = target;
        Ok(())
    }

    /// Moves the position forward by `amt` bytes, as [`RarReader::r_seek`].
    pub fn seek(&mut self, amt: u64) -> (r: Result<(), RarError>)
        ensures
            final(self).stream() == old(self).stream(),
            final(self).in_bounds(),
            match r {
                Ok(_) => {
                    &&& amt <= old(self).remaining().len()
                    &&& final(self).position() == old(self).position() + amt
                    &&& final(self).remaining() == old(self).remaining().skip(amt as int)
                    &&& final(self).window_len() == if amt <= old(self).window_len() {
                        old(self).window_len() - amt
                    } else {
                        0
                    }
                },
                Err(e) => {
                    &&& e == RarError::Truncated
                    &&& amt > old(self).remaining().len()
                    &&& final(self).position() == old(self).position()
                    &&& final(self).window_len() == old(self).window_len()
                },
            },
    {
        self.r_seek(amt)
    }

    /// Moves the position to `offset` bytes from the start of the stream and
    /// empties the window. Fails as truncated, without moving, when the
    /// stream is shorter.
    pub fn seek_from_start(&mut self, offset: u64) -> (r: Result<(), RarError>)
        ensures
            final(self).stream() == old(self).stream(),
            final(self).in_bounds(),
            match r {
                Ok(_) => {
                    &&& offset <= old(self).stream().len()
                    &&& final(self).position() == offset
                    &&& final(self).window_len() == 0
                },
                Err(e) => {
                    &&& e == RarError::Truncated
                    &&& offset > old(self).stream().len()
                    &&& final(self).position() == old(self).position()
                    &&& final(self).window_len() == old(self).window_len()
                },
            },
    {
        proof {
            use_type_invariant(&*self);
        }
        if offset > self.source.len() as u64 {
            return Err(RarError::Truncated);
        }
        let target = offset as usize;
        if target <= self.pos {
            self.pos = target;
            self.filled = target;
        } else {
            self.filled = target;
            self.pos = target;
        }
        Ok(())
    }

    /// Takes up to `max` bytes off the stream: as many as remain, if fewer.
    pub fn read(&mut self, max: usize) -> (r: Vec<u8>)
        ensures
            final(self).stream() == old(self).stream(),
            final(self).in_bounds(),
            r@.len() == if old(self).remaining().len() < max {
                old(self).remaining().len()
            } else {
                max as nat
            },
            r@ == old(self).remaining().take(r@.len() as int),
            final(self).position() == old(self).position() + r@.len(),
            final(self).remaining() == old(self).remaining().skip(r@.len() as int),
            final(self).window_len() == if r@.len() <= old(self).window_len() {
                old(self).window_len() - r@.len()
            } else {
                0
            },
    {
        broadcast use vstd::seq_lib::lemma_seq_skip_of_skip;

        proof {
            use_type_invariant(&*self);
        }
        let rest = self.source.len() - self.pos;
        let n = if rest < max {
            rest
        } else {
            max
        };
        let out = slice_to_vec(slice_subrange(self.source.as_slice(), self.pos, self.pos + n));
        assert(out@ =~= self.remaining().take(n as int));
        let target = self.pos + n;
        if self.filled < target {
            self.filled = target;
        }
        self.pos = target;
        out
    }

    /// Runs a parser against the window and consumes what it accepts.
    ///
    /// The parser runs on the buffered window first. While it finds the
    /// window incomplete, the window is refilled and the parser runs again;
    /// at the end of the stream this surfaces as a truncated stream. The
    /// outcome is that of the parser on the last window it was given.
    pub fn exec_nom_parser<F, D>(&mut self, func: F) -> (r: Result<D, RarError>) where
        F: Fn(&[u8]) -> Result<(&[u8], D), ParseError>,

        requires
            forall|w: &[u8]| call_requires(func, (w,)),
        ensures
            final(self).stream() == old(self).stream(),
            final(self).in_bounds(),
            exists|k: nat, win: &[u8], res: Result<(&[u8], D), ParseError>|
                ran_parser(func, *old(self), *final(self), r, k, win, res),
    {
        broadcast use vstd::seq_lib::lemma_seq_skip_of_skip;

        let ghost all = self.remaining();
        let ghost first = self.window_len();
        let ghost mut k: nat = 0;
        proof {
            use_type_invariant(&*self);
        }
        loop
            invariant
                all == old(self).remaining(),
                first == old(self).window_len(),
                self.stream() == old(self).stream(),
                self.position() == old(self).position(),
                self.window_len() == refilled(first, all.len(), k),
                first <= self.window_len() <= all.len(),
                forall|j: nat|
                    j < k ==> found_incomplete(func, all, #[trigger] refilled(first, all.len(), j)),
                forall|w: &[u8]| call_requires(func, (w,)),
            decreases self.stream().len() - self.position() - self.window_len(),
        {
            proof {
                use_type_invariant(&*self);
            }
            let win = slice_subrange(self.source.as_slice(), self.pos, self.filled);
            let buf_len = win.len();
            assert(win@ =~= all.take(buf_len as int));
            let res = func(win);
            let ghost outcome = res;
            match res {
                Ok((rest, d)) => {
                    let bl = rest.len();
                    if bl > buf_len {
                        let r = Err(RarError::ParseFailed);
                        assert(ran_parser(func, *old(self), *self, r, k, win, outcome));
                        return r;
                    }
                    self.pos = self.pos + (buf_len - bl);
                    let r = Ok(d);
                    assert(ran_parser(func, *old(self), *self, r, k, win, outcome));
                    return r;
                },
                Err(ParseError::Incomplete) => {
                    if self.filled == self.source.len() {
                        let r = Err(RarError::Truncated);
                        assert(ran_parser(func, *old(self), *self, r, k, win, outcome));
                        return r;
                    }
                    proof {
                        assert(found_incomplete(func, all, refilled(first, all.len(), k)));
                    }
                    self.refill();
                    proof {
                        k = k + 1;
                    }
                },
                Err(ParseError::Malformed) => {
                    let r = Err(RarError::ParseFailed);
                    assert(ran_parser(func, *old(self), *self, r, k, win, outcome));
                    return r;
                },
                Err(ParseError::WrongType) => {
                    let r = Err(RarError::WrongType);
                    assert(ran_parser(func, *old(self), *self, r, k, win, outcome));
                    return r;
                },
            }
        }
    }

    /// The reader limited to its next `limit` bytes, or to what remains if
    /// that is less.
    pub fn take(self, limit: u64) -> (r: RarReader)
        ensures
            r.position() == 0,
            r.stream() == self.remaining().take(
                if self.remaining().len() < limit {
                    self.remaining().len() as int
                } else {
                    limit as int
                },
            ),
            r.window_len() == if r.stream().len() < BUFFER_SIZE {
                r.stream().len()
            } else {
                BUFFER_SIZE as nat
            },
            r.in_bounds(),
    {
        proof {
            use_type_invariant(&self);
        }
        let rest = self.source.len() - self.pos;
        let n = if (rest as u64) < limit {
            rest
        } else {
            limit as usize
        };
        let data = slice_to_vec(slice_subrange(self.source.as_slice(), self.pos, self.pos + n));
        assert(data@ =~= self.remaining().take(n as int));
        RarReader::new(data)
    }

    /// The reader that yields what remains of `self` and then what remains
    /// of `next`.
    pub fn chain(self, next: RarReader) -> (r: RarReader)
        ensures
            r.position() == 0,
            r.stream() == self.remaining() + next.remaining(),
            r.window_len() == if r.stream().len() < BUFFER_SIZE {
                r.stream().len()
            } else {
                BUFFER_SIZE as nat
            },
            r.in_bounds(),
    {
        proof {
            use_type_invariant(&self);
            use_type_invariant(&next);
        }
        let mut data = slice_to_vec(
            slice_subrange(self.source.as_slice(), self.pos, self.source.len()),
        );
        let tail = slice_subrange(next.source.as_slice(), next.pos, next.source.len());
        data.extend_from_slice(tail);
        assert(data@ =~= self.remaining() + next.remaining());
        RarReader::new(data)
    }
}

} // verus!

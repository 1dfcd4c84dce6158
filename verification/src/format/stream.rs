//! Byte streams with a position, such as files and buffers.

use vstd::prelude::*;

verus! {

/// Why a stream operation failed.
#[derive(Debug, Clone)]
pub enum StreamError {
    /// The stream ended before all bytes were read.
    UnexpectedEof,
    /// The device behind the stream failed, for the reason given.
    Other(String),
}

/// What a [`StreamError`] stands for.
pub enum ErrorView {
    UnexpectedEof,
    Other(Seq<char>),
}

impl View for StreamError {
    type V = ErrorView;

    open spec fn view(&self) -> ErrorView {
        match self {
            StreamError::UnexpectedEof => ErrorView::UnexpectedEof,
            StreamError::Other(reason) => ErrorView::Other(reason@),
        }
    }
}

impl StreamError {
    /// The text of the error.
    pub open spec fn text(&self) -> Seq<char> {
        match self {
            StreamError::UnexpectedEof => "failed to fill whole buffer"@,
            StreamError::Other(reason) => reason@,
        }
    }

    /// An error with a given reason.
    pub fn other(reason: &str) -> (e: Self)
        ensures
            e@ == ErrorView::Other(reason@),
            e is Other,
            e.text() == reason@,
    {
        StreamError::Other(reason.to_owned())
    }

    /// The same error again.
    pub fn duplicate(&self) -> (e: Self)
        ensures
            e@ == self@,
            e is Other == self is Other,
            e.text() == self.text(),
    {
        match self {
            StreamError::UnexpectedEof => StreamError::UnexpectedEof,
            StreamError::Other(reason) => StreamError::Other(reason.clone()),
        }
    }

    /// The error in words.
    pub fn message(&self) -> (s: String)
        ensures
            s@ == self.text(),
    {
        match self {
            StreamError::UnexpectedEof => "failed to fill whole buffer".to_owned(),
            StreamError::Other(reason) => reason.clone(),
        }
    }
}

/// `n` zero bytes.
pub open spec fn zeros(n: nat) -> Seq<u8> {
    Seq::new(n, |i: int| 0u8)
}

/// The bytes `b` with `data` written over them from `at` on; a gap before `at`
/// is filled with zeros.
pub open spec fn overwrite(b: Seq<u8>, at: nat, data: Seq<u8>) -> Seq<u8> {
    let base = if at <= b.len() {
        b
    } else {
        b + zeros((at - b.len()) as nat)
    };
    let end = at + data.len();
    base.take(at as int) + data + (if end < base.len() {
        base.skip(end as int)
    } else {
        Seq::empty()
    })
}

/// The last failure, once an operation has come to `r`.
pub open spec fn failure_after<T>(
    before: Option<ErrorView>,
    r: Result<T, StreamError>,
) -> Option<ErrorView> {
    match r {
        Ok(_) => before,
        Err(e) => Some(e@),
    }
}

/// The bytes `b` after a write of `data` at `at` that came only as far as `n`
/// bytes.
pub open spec fn written_in_part(b: Seq<u8>, at: nat, data: Seq<u8>, n: int) -> Seq<u8> {
    if n <= 0 {
        b
    } else {
        overwrite(b, at, data.take(n))
    }
}

/// `after` is what a write of `data` at `at` may leave of the bytes `b` if it
/// fails: some bytes of `data` are there, but not all.
pub open spec fn cut_short(b: Seq<u8>, at: nat, data: Seq<u8>, after: Seq<u8>) -> bool {
    exists|n: int| 0 <= n < data.len() && after == #[trigger] written_in_part(b, at, data, n)
}

/// A write that fails leaves the bytes before it as they are, and none behind
/// where it would have ended.
pub proof fn lemma_cut_short(b: Seq<u8>, at: nat, data: Seq<u8>, after: Seq<u8>)
    requires
        cut_short(b, at, data, after),
    ensures
        after.len() >= b.len(),
        after.len() > b.len() ==> after.len() < at + data.len(),
        forall|i: int| 0 <= i < at && i < b.len() ==> #[trigger] after[i] == b[i],
        forall|i: int| at + data.len() <= i < b.len() ==> #[trigger] after[i] == b[i],
{
    let n = choose|n: int|
        0 <= n < data.len() && after == #[trigger] written_in_part(b, at, data, n);
    assert(after == written_in_part(b, at, data, n));
}

/// A stream of bytes that can be read, written and moved in.
///
/// A healthy stream is one whose device never fails: its operations fail only
/// for want of bytes or room. Of a stream that is not healthy it is known what
/// its operations did when they succeed, and that a write that fails does no
/// more than a part of its work.
pub trait ByteStream: Sized {
    /// All bytes of the stream.
    closed spec fn bytes(&self) -> Seq<u8> {
        arbitrary()
    }

    /// The position of the next byte to be read or written.
    closed spec fn at(&self) -> nat {
        arbitrary()
    }

    /// The device behind the stream never fails.
    closed spec fn healthy(&self) -> bool {
        false
    }

    /// The error of the last operation that failed, if one did.
    closed spec fn failure(&self) -> Option<ErrorView> {
        arbitrary()
    }

    /// The position.
    fn position(&mut self) -> (r: Result<u64, StreamError>)
        ensures
            final(self).bytes() == old(self).bytes(),
            r matches Ok(p) ==> p == old(self).at() && final(self).at() == old(self).at(),
            final(self).failure() == failure_after(old(self).failure(), r),
            old(self).healthy() ==> r is Ok && final(self).healthy(),
    ;

    /// Moves to a position counted from the start. Positions above `i64::MAX`
    /// may be refused.
    fn seek_to(&mut self, pos: u64) -> (r: Result<(), StreamError>)
        ensures
            final(self).bytes() == old(self).bytes(),
            r is Ok ==> final(self).at() == pos,
            final(self).failure() == failure_after(old(self).failure(), r),
            old(self).healthy() ==> final(self).healthy(),
            old(self).healthy() && pos <= i64::MAX ==> r is Ok,
    ;

    /// Moves to the end, and tells where it is. Streams are at most `i64::MAX`
    /// bytes long.
    fn seek_to_end(&mut self) -> (r: Result<u64, StreamError>)
        ensures
            final(self).bytes() == old(self).bytes(),
            r matches Ok(n) ==> n == old(self).bytes().len() && n <= i64::MAX && final(self).at()
                == n,
            final(self).failure() == failure_after(old(self).failure(), r),
            old(self).healthy() ==> r is Ok && final(self).healthy(),
    ;

    /// Reads exactly `n` bytes.
    fn read_exact(&mut self, n: usize) -> (r: Result<Vec<u8>, StreamError>)
        ensures
            final(self).bytes() == old(self).bytes(),
            r matches Ok(v) ==> {
                &&& v@.len() == n
                &&& n > 0 ==> old(self).at() + n <= old(self).bytes().len() && v@
                    == old(self).bytes().subrange(old(self).at() as int, old(self).at() + n)
                &&& final(self).at() == old(self).at() + n
            },
            final(self).failure() == failure_after(old(self).failure(), r),
            old(self).healthy() ==> {
                &&& final(self).healthy()
                &&& r is Err <==> n > 0 && old(self).at() + n > old(self).bytes().len()
                &&& r matches Err(e) ==> e is UnexpectedEof
            },
    ;

    /// Writes all of `data`, which is not empty.
    fn write_all(&mut self, data: &[u8]) -> (r: Result<(), StreamError>)
        requires
            data@.len() > 0,
        ensures
            r is Ok ==> {
                &&& final(self).bytes() == overwrite(old(self).bytes(), old(self).at(), data@)
                &&& final(self).at() == old(self).at() + data@.len()
            },
            r is Err ==> cut_short(old(self).bytes(), old(self).at(), data@, final(self).bytes()),
            final(self).failure() == failure_after(old(self).failure(), r),
            old(self).healthy() ==> final(self).healthy(),
            old(self).healthy() && old(self).at() + data@.len() <= isize::MAX ==> r is Ok,
    ;
}

/// A stream in memory.
#[derive(Debug, Clone)]
pub struct MemStream {
    data: Vec<u8>,
    pos: u64,
    failure: Option<StreamError>,
}

impl MemStream {
    /// A stream over the given bytes, at their start.
    pub fn new(data: Vec<u8>) -> (s: Self)
        ensures
            s.bytes() == data@,
            s.at() == 0,
            s.failure() is None,
            data@.len() <= isize::MAX ==> s.healthy(),
    {
        MemStream { data, pos: 0, failure: None }
    }

    /// The bytes of the stream.
    pub fn into_inner(self) -> (data: Vec<u8>)
        ensures
            data@ == self.bytes(),
    {
        self.data
    }
}

impl ByteStream for MemStream {
    closed spec fn bytes(&self) -> Seq<u8> {
        self.data@
    }

    closed spec fn at(&self) -> nat {
        self.pos as nat
    }

    closed spec fn healthy(&self) -> bool {
        self.data@.len() <= isize::MAX
    }

    closed spec fn failure(&self) -> Option<ErrorView> {
        match self.failure {
            Some(e) => Some(e@),
            None => None,
        }
    }

    fn position(&mut self) -> (r: Result<u64, StreamError>) {
        Ok(self.pos)
    }

    fn seek_to(&mut self, pos: u64) -> (r: Result<(), StreamError>) {
        self.pos = pos;
        Ok(())
    }

    fn seek_to_end(&mut self) -> (r: Result<u64, StreamError>) {
        let n: usize = self.data.len();
        if n as u64 > i64::MAX as u64 {
            let e = StreamError::other("stream too long");
            self.failure = Some(e.duplicate());
            return Err(e);
        }
        self.pos = n as u64;
        Ok(n as u64)
    }

    fn read_exact(&mut self, n: usize) -> (r: Result<Vec<u8>, StreamError>) {
        let mut out: Vec<u8> = Vec::new();
        if n == 0 {
            return Ok(out);
        }
        let len: usize = self.data.len();
        if self.pos > len as u64 || n > len - self.pos as usize {
            self.failure = Some(StreamError::UnexpectedEof);
            return Err(StreamError::UnexpectedEof);
        }
        let start: usize = self.pos as usize;
        for i in 0..n
            invariant
                start + n <= len,
                len == self.data@.len(),
                self.failure == old(self).failure,
                out@ == self.data@.subrange(start as int, start + i),
        {
            out.push(self.data[start + i]);
            assert(self.data@.subrange(start as int, start + i + 1) =~= self.data@.subrange(
                start as int,
                start + i,
            ).push(self.data@[start + i]));
        }
        self.pos = (start + n) as u64;
        Ok(out)
    }

    fn write_all(&mut self, data: &[u8]) -> (r: Result<(), StreamError>) {
        let n: usize = data.len();
        let limit: u64 = isize::MAX as u64;
        if self.pos > limit || n as u64 > limit - self.pos {
            let e = StreamError::other("stream too long");
            self.failure = Some(e.duplicate());
            assert(self.data@ == written_in_part(old(self).data@, old(self).pos as nat, data@, 0));
            return Err(e);
        }
        let start: usize = self.pos as usize;
        let ghost before = self.data@;
        let ghost base = if start <= before.len() {
            before
        } else {
            before + zeros((start - before.len()) as nat)
        };
        while self.data.len() < start
            invariant
                self.pos == start,
                self.failure == old(self).failure,
                before.len() <= self.data@.len(),
                start < before.len() ==> self.data@ == before,
                start >= before.len() ==> self.data@.len() <= start,
                start >= before.len() ==> self.data@ == before + zeros(
                    (self.data@.len() - before.len()) as nat,
                ),
            decreases start - self.data@.len(),
        {
            self.data.push(0);
            assert(self.data@ =~= before + zeros((self.data@.len() - before.len()) as nat));
        }
        proof {
            assert(self.data@ =~= base);
        }
        for i in 0..n
            invariant
                self.pos == start,
                self.failure == old(self).failure,
                start + n <= isize::MAX,
                n == data@.len(),
                start <= base.len(),
                self.data@.len() == (if start + i < base.len() {
                    base.len()
                } else {
                    (start + i) as nat
                }),
                forall|k: int| 0 <= k < start ==> self.data@[k] == base[k],
                forall|k: int| start <= k < start + i ==> self.data@[k] == data@[k - start],
                forall|k: int| start + i <= k < base.len() ==> self.data@[k] == base[k],
        {
            if start + i < self.data.len() {
                self.data.set(start + i, data[i]);
            } else {
                self.data.push(data[i]);
            }
        }
        self.pos = (start + n) as u64;
        proof {
            assert(self.data@ =~= overwrite(before, start as nat, data@));
        }
        Ok(())
    }
}

/// A write replaces the bytes from where it starts by its data, as many as there
/// are, and no others. Where it starts behind the end, zeros fill the gap.
pub proof fn law_writes_replace_bytes(b: Seq<u8>, at: nat, data: Seq<u8>)
    requires
        data.len() > 0,
    ensures
        ({
            let after = overwrite(b, at, data);
            &&& after.len() == (if at + data.len() > b.len() {
                at + data.len()
            } else {
                b.len()
            })
            &&& after.subrange(at as int, (at + data.len()) as int) == data
            &&& forall|i: int|
                0 <= i < after.len() && !(at <= i < at + data.len()) ==> #[trigger] after[i] == (
                if i < b.len() {
                    b[i]
                } else {
                    0
                })
        }),
{
    let after = overwrite(b, at, data);
    assert(after.subrange(at as int, (at + data.len()) as int) =~= data);
}

} // verus!

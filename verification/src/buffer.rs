//! The byte buffer that every codec reads and writes: bytes addressed by an
//! absolute offset, and a cursor that a seek moves anywhere.

use vstd::prelude::*;
use vstd::slice::slice_subrange;
use crate::error::{Failure, IoErrorKind, ZeroFormatterError, ZeroFormatterResult};

verus! {

/// The largest offset that the format can address: its sizes, counts and
/// table entries are signed 32-bit numbers.
pub const LIMIT: u64 = 0x7fff_ffff;

/// `old` after `data` has been written at offset `at`. A write that starts
/// past the end fills the gap with zeros.
pub open spec fn overwrite(old: Seq<u8>, at: int, data: Seq<u8>) -> Seq<u8> {
    let end = at + data.len();
    Seq::new(
        (if end > old.len() { end } else { old.len() as int }) as nat,
        |i: int|
            if at <= i < end {
                data[i - at]
            } else if i < old.len() {
                old[i]
            } else {
                0u8
            },
    )
}

/// Whether the `n` bytes from offset `at` exist and lie within what the format can address.
pub open spec fn readable(bytes: Seq<u8>, at: int, n: int) -> bool {
    0 <= at && 0 <= n && at + n <= bytes.len() && at + n <= LIMIT
}

/// A write inside a region written before changes that region only.
pub proof fn lemma_overwrite_inside(old: Seq<u8>, at: int, data: Seq<u8>, rel: int, patch: Seq<u8>)
    requires
        0 <= at,
        0 <= rel,
        rel + patch.len() <= data.len(),
    ensures
        overwrite(overwrite(old, at, data), at + rel, patch) == overwrite(
            old,
            at,
            overwrite(data, rel, patch),
        ),
        overwrite(data, rel, patch).len() == data.len(),
{
    assert(overwrite(overwrite(old, at, data), at + rel, patch) =~= overwrite(
        old,
        at,
        overwrite(data, rel, patch),
    ));
}

/// A write that starts where an earlier one ended continues it.
pub proof fn lemma_overwrite_append(old: Seq<u8>, at: int, data: Seq<u8>, more: Seq<u8>)
    requires
        0 <= at,
    ensures
        overwrite(overwrite(old, at, data), at + data.len(), more) == overwrite(
            old,
            at,
            data + more,
        ),
{
    assert(overwrite(overwrite(old, at, data), at + data.len(), more) =~= overwrite(
        old,
        at,
        data + more,
    ));
}

/// What was written can be read back where it was written.
pub proof fn lemma_overwrite_holds(old: Seq<u8>, at: int, data: Seq<u8>)
    requires
        0 <= at,
    ensures
        overwrite(old, at, data).len() >= at + data.len(),
        overwrite(old, at, data).subrange(at, at + data.len()) == data,
{
    assert(overwrite(old, at, data).subrange(at, at + data.len()) =~= data);
}

/// What a buffer is: its bytes, and where its cursor stands.
pub struct BufferView {
    pub bytes: Seq<u8>,
    pub position: u64,
}

/// A growable run of bytes with a cursor.
pub struct Buffer {
    bytes: Vec<u8>,
    position: u64,
}

impl View for Buffer {
    type V = BufferView;

    closed spec fn view(&self) -> BufferView {
        BufferView { bytes: self.bytes@, position: self.position }
    }
}

impl Buffer {
    /// A buffer over `inner`, with the cursor at its start.
    pub fn new(inner: Vec<u8>) -> (r: Buffer)
        ensures
            r@.bytes == inner@,
            r@.position == 0,
    {
        Buffer { bytes: inner, position: 0 }
    }

    /// The bytes of the buffer.
    pub fn into_inner(self) -> (r: Vec<u8>)
        ensures
            r@ == self@.bytes,
    {
        self.bytes
    }

    /// The bytes of the buffer, borrowed.
    pub fn get_ref(&self) -> (r: &Vec<u8>)
        ensures
            r@ == self@.bytes,
    {
        &self.bytes
    }

    /// Where the cursor stands.
    pub fn position(&self) -> (r: u64)
        ensures
            r == self@.position,
    {
        self.position
    }

    /// Moves the cursor to `position`, which may lie past the end.
    pub fn seek(&mut self, position: u64)
        ensures
            final(self)@.bytes == old(self)@.bytes,
            final(self)@.position == position,
    {
        self.position = position;
    }

    /// The `n` bytes from offset `at`, if they can be read.
    pub(crate) fn peek(&self, at: u64, n: u64) -> (r: Option<&[u8]>)
        ensures
            match r {
                Some(s) => readable(self@.bytes, at as int, n as int) && s@ == self@.bytes.subrange(
                    at as int,
                    at + n,
                ),
                None => !readable(self@.bytes, at as int, n as int),
            },
    {
        let len: usize = self.bytes.len();
        if at > LIMIT || n > LIMIT - at {
            return None;
        }
        let end: u64 = at + n;
        if end > len as u64 {
            return None;
        }
        Some(slice_subrange(self.bytes.as_slice(), at as usize, end as usize))
    }

    /// Writes `data` at offset `at` and leaves the cursor where it was.
    pub(crate) fn poke(&mut self, at: u64, data: &[u8])
        requires
            at + data@.len() <= LIMIT,
        ensures
            final(self)@.bytes == overwrite(old(self)@.bytes, at as int, data@),
            final(self)@.position == old(self)@.position,
    {
        let start: usize = at as usize;
        while self.bytes.len() < start
            invariant
                start == at,
                at <= LIMIT,
                self.position == old(self).position,
                old(self).bytes@.len() <= self.bytes@.len(),
                self.bytes@.len() <= start || self.bytes@.len() == old(self).bytes@.len(),
                forall|i: int|
                    0 <= i < old(self).bytes@.len() ==> self.bytes@[i] == old(self).bytes@[i],
                forall|i: int|
                    old(self).bytes@.len() <= i < self.bytes@.len() ==> self.bytes@[i] == 0u8,
            decreases start - self.bytes@.len(),
        {
            self.bytes.push(0u8);
        }
        let ghost padded = self.bytes@;
        let mut i: usize = 0;
        while i < data.len()
            invariant
                start == at,
                at + data@.len() <= LIMIT,
                i <= data@.len(),
                self.position == old(self).position,
                padded.len() >= start,
                padded.len() == (if start > old(self).bytes@.len() {
                    start as nat
                } else {
                    old(self).bytes@.len()
                }),
                forall|j: int| 0 <= j < old(self).bytes@.len() ==> padded[j] == old(self).bytes@[j],
                forall|j: int| old(self).bytes@.len() <= j < padded.len() ==> padded[j] == 0u8,
                self.bytes@.len() == (if start + i > padded.len() {
                    (start + i) as nat
                } else {
                    padded.len()
                }),
                forall|j: int| 0 <= j < start ==> self.bytes@[j] == padded[j],
                forall|j: int| start <= j < start + i ==> self.bytes@[j] == data@[j - start],
                forall|j: int| start + i <= j < padded.len() ==> self.bytes@[j] == padded[j],
            decreases data@.len() - i,
        {
            let b: u8 = data[i];
            if start + i < self.bytes.len() {
                self.bytes[start + i] = b;
            } else {
                self.bytes.push(b);
            }
            i = i + 1;
        }
        proof {
            let target = overwrite(old(self).bytes@, at as int, data@);
            assert(i == data@.len());
            assert(self.bytes@.len() == target.len());
            assert forall|j: int| 0 <= j < target.len() implies self.bytes@[j] == target[j] by {
                if j < start || j >= start + i {
                    assert(self.bytes@[j] == padded[j]);
                }
            }
            assert(self.bytes@ =~= target);
        }
    }

    /// Writes `n` zero bytes at offset `at` and leaves the cursor where it was.
    pub(crate) fn fill(&mut self, at: u64, n: u64)
        requires
            at + n <= LIMIT,
        ensures
            final(self)@.bytes == overwrite(
                old(self)@.bytes,
                at as int,
                Seq::new(n as nat, |i: int| 0u8),
            ),
            final(self)@.position == old(self)@.position,
    {
        let ghost zeros = Seq::new(n as nat, |i: int| 0u8);
        let start: usize = at as usize;
        let end: usize = (at + n) as usize;
        let mut i: usize = start;
        while i < end && i < self.bytes.len()
            invariant
                start == at,
                end == at + n,
                at + n <= LIMIT,
                start <= i,
                i <= end || i == start,
                self.position == old(self).position,
                self.bytes@.len() == old(self).bytes@.len(),
                forall|j: int| 0 <= j < start && j < self.bytes@.len() ==> self.bytes@[j] == old(
                    self,
                ).bytes@[j],
                forall|j: int| start <= j < i ==> self.bytes@[j] == 0u8,
                forall|j: int| i <= j < self.bytes@.len() ==> self.bytes@[j] == old(self).bytes@[j],
            decreases end - i,
        {
            self.bytes[i] = 0u8;
            i = i + 1;
        }
        while self.bytes.len() < end
            invariant
                start == at,
                end == at + n,
                at + n <= LIMIT,
                self.position == old(self).position,
                old(self).bytes@.len() <= self.bytes@.len(),
                self.bytes@.len() <= end || self.bytes@.len() == old(self).bytes@.len(),
                forall|j: int| 0 <= j < start && j < old(self).bytes@.len() ==> self.bytes@[j]
                    == old(self).bytes@[j],
                forall|j: int|
                    start <= j < end && j < old(self).bytes@.len() ==> self.bytes@[j] == 0u8,
                forall|j: int|
                    end <= j < old(self).bytes@.len() ==> self.bytes@[j] == old(self).bytes@[j],
                forall|j: int|
                    old(self).bytes@.len() <= j < self.bytes@.len() ==> self.bytes@[j] == 0u8,
            decreases end - self.bytes@.len(),
        {
            self.bytes.push(0u8);
        }
        proof {
            let target = overwrite(old(self).bytes@, at as int, zeros);
            assert(self.bytes@.len() == target.len());
            assert forall|j: int| 0 <= j < target.len() implies self.bytes@[j] == target[j] by {
                if j < old(self).bytes@.len() {
                    if j < start {
                    } else if j < end {
                    } else {
                    }
                } else {
                }
            }
            assert(self.bytes@ =~= target);
        }
    }

    /// Moves the cursor to `at` and writes `data` there; returns its length.
    pub(crate) fn store(&mut self, at: u64, data: &[u8]) -> (r: ZeroFormatterResult<i32>)
        ensures
            match r {
                Ok(n) => {
                    &&& at + data@.len() <= LIMIT
                    &&& n == data@.len()
                    &&& final(self)@.bytes == overwrite(old(self)@.bytes, at as int, data@)
                    &&& final(self)@.position == at + data@.len()
                },
                Err(e) => {
                    &&& at + data@.len() > LIMIT
                    &&& e@ == Failure::Io(IoErrorKind::StorageFull)
                    &&& final(self)@ == old(self)@
                },
            },
    {
        let n: usize = data.len();
        if at > LIMIT || n as u64 > LIMIT - at {
            return Err(ZeroFormatterError::IoError(IoErrorKind::StorageFull));
        }
        self.poke(at, data);
        self.position = at + n as u64;
        Ok(n as i32)
    }

    /// The `n` bytes from offset `at`, or the failure of a read past the end.
    pub(crate) fn fetch(&self, at: u64, n: u64) -> (r: Result<&[u8], ZeroFormatterError>)
        ensures
            match r {
                Ok(s) => readable(self@.bytes, at as int, n as int) && s@ == self@.bytes.subrange(
                    at as int,
                    at + n,
                ),
                Err(e) => !readable(self@.bytes, at as int, n as int) && e@ == Failure::Io(
                    IoErrorKind::UnexpectedEof,
                ),
            },
    {
        match self.peek(at, n) {
            Some(s) => Ok(s),
            None => Err(ZeroFormatterError::IoError(IoErrorKind::UnexpectedEof)),
        }
    }

    /// Writes `data` where the cursor stands and moves the cursor past it.
    /// Nothing is written when the write would end beyond `LIMIT`.
    pub fn write_all(&mut self, data: &[u8]) -> (r: Result<(), ZeroFormatterError>)
        ensures
            match r {
                Ok(_) => {
                    &&& old(self)@.position + data@.len() <= LIMIT
                    &&& final(self)@.bytes == overwrite(
                        old(self)@.bytes,
                        old(self)@.position as int,
                        data@,
                    )
                    &&& final(self)@.position == old(self)@.position + data@.len()
                },
                Err(e) => {
                    &&& old(self)@.position + data@.len() > LIMIT
                    &&& e@ == Failure::Io(IoErrorKind::StorageFull)
                    &&& final(self)@ == old(self)@
                },
            },
    {
        let at: u64 = self.position;
        let n: usize = data.len();
        if at > LIMIT || n as u64 > LIMIT - at {
            return Err(ZeroFormatterError::IoError(IoErrorKind::StorageFull));
        }
        self.poke(at, data);
        self.position = at + n as u64;
        Ok(())
    }

    /// The `n` bytes where the cursor stands; the cursor moves past them.
    /// Nothing moves when they cannot be read.
    pub fn read_exact(&mut self, n: u64) -> (r: Result<Vec<u8>, ZeroFormatterError>)
        ensures
            final(self)@.bytes == old(self)@.bytes,
            match r {
                Ok(v) => {
                    &&& readable(old(self)@.bytes, old(self)@.position as int, n as int)
                    &&& v@ == old(self)@.bytes.subrange(
                        old(self)@.position as int,
                        old(self)@.position + n,
                    )
                    &&& final(self)@.position == old(self)@.position + n
                },
                Err(e) => {
                    &&& !readable(old(self)@.bytes, old(self)@.position as int, n as int)
                    &&& e@ == Failure::Io(IoErrorKind::UnexpectedEof)
                    &&& final(self)@ == old(self)@
                },
            },
    {
        let at: u64 = self.position;
        let v: Vec<u8> = match self.peek(at, n) {
            Some(s) => vstd::slice::slice_to_vec(s),
            None => {
                return Err(ZeroFormatterError::IoError(IoErrorKind::UnexpectedEof));
            },
        };
        self.position = at + n;
        Ok(v)
    }
}

} // verus!

//! Sequences: the number of elements as a signed 32-bit number, then the
//! elements one behind the other. The count -1 stands for an absent sequence.

use vstd::prelude::*;
use vstd::array::array_as_slice;
use crate::buffer::{lemma_overwrite_append, overwrite, Buffer, LIMIT};
use crate::endian::{
    i32_to_le, le_bytes, lemma_le_bytes_len, lemma_le_value_of_bytes, lemma_radix_values, unsigned,
};
use crate::error::{Failure, IoErrorKind, ZeroFormatterError, ZeroFormatterResult};
use crate::formatter::{holds, kept_before, Formatter};
use crate::primitive::{lemma_signed_at_fits, placed, signed_at};

verus! {

/// The bytes of the first `k` of `items`, written one behind the other from `offset`.
pub open spec fn run_encoding<A: DeepView>(items: Seq<A::V>, offset: u64, k: nat) -> Result<
    Seq<u8>,
    Failure,
> where Buffer: Formatter<A>
    decreases k,
{
    if k == 0 {
        Ok(Seq::empty())
    } else {
        match run_encoding::<A>(items, offset, (k - 1) as nat) {
            Err(f) => Err(f),
            Ok(wire) => match <Buffer as Formatter<A>>::encoding(
                items[k - 1],
                (offset + wire.len()) as u64,
            ) {
                Err(f) => Err(f),
                Ok(item) => Ok(wire + item),
            },
        }
    }
}

/// The `k` values read one behind the other from `offset`, with the offset behind the last.
pub open spec fn run_decoding<A: DeepView>(bytes: Seq<u8>, offset: u64, k: nat) -> Result<
    (Seq<A::V>, u64),
    Failure,
> where Buffer: Formatter<A>
    decreases k,
{
    if k == 0 {
        Ok((Seq::empty(), offset))
    } else {
        match run_decoding::<A>(bytes, offset, (k - 1) as nat) {
            Err(f) => Err(f),
            Ok((items, mid)) => match <Buffer as Formatter<A>>::decoding(bytes, mid) {
                Err(f) => Err(f),
                Ok((item, next)) => Ok((items.push(item), next)),
            },
        }
    }
}

/// The bytes of a sequence. More elements than a signed 32-bit count can
/// tell have no encoding.
pub open spec fn sequence_encoding<A: DeepView>(items: Seq<A::V>, offset: u64) -> Result<
    Seq<u8>,
    Failure,
> where Buffer: Formatter<A> {
    if items.len() > i32::MAX {
        Err(Failure::Io(IoErrorKind::InvalidInput))
    } else if offset > LIMIT - 4 {
        Err(Failure::Io(IoErrorKind::StorageFull))
    } else {
        match run_encoding::<A>(items, (offset + 4) as u64, items.len()) {
            Err(f) => Err(f),
            Ok(wire) => Ok(le_bytes(items.len(), 4) + wire),
        }
    }
}

/// The elements behind a count that was read at `offset`.
pub open spec fn counted_decoding<A: DeepView>(
    bytes: Seq<u8>,
    offset: u64,
    count: int,
    start: u64,
) -> Result<(Seq<A::V>, u64), Failure> where Buffer: Formatter<A> {
    if count < 0 {
        Err(Failure::Binary(offset))
    } else {
        run_decoding::<A>(bytes, start, count as nat)
    }
}

/// An encoded run of `k` items is read back as those items.
pub proof fn lemma_run_round_trip<A: DeepView>(
    items: Seq<A::V>,
    offset: u64,
    k: nat,
    bytes: Seq<u8>,
) where Buffer: Formatter<A>
    requires
        k <= items.len(),
        offset <= LIMIT,
        run_encoding::<A>(items, offset, k) is Ok,
        holds(bytes, offset as int, run_encoding::<A>(items, offset, k)->Ok_0),
    ensures
        offset + run_encoding::<A>(items, offset, k)->Ok_0.len() <= LIMIT,
        run_decoding::<A>(bytes, offset, k) == Ok::<(Seq<A::V>, u64), Failure>(
            (items.take(k as int), (offset + run_encoding::<A>(items, offset, k)->Ok_0.len()) as u64),
        ),
    decreases k,
{
    if k == 0 {
        assert(items.take(0) =~= Seq::<A::V>::empty());
    } else {
        let before = run_encoding::<A>(items, offset, (k - 1) as nat)->Ok_0;
        let mid = (offset + before.len()) as u64;
        let item = <Buffer as Formatter<A>>::encoding(items[k - 1], mid)->Ok_0;
        let wire = before + item;
        assert(bytes.subrange(offset as int, offset + before.len()) =~= before) by {
            assert(bytes.subrange(offset as int, offset + before.len()) =~= wire.subrange(
                0,
                before.len() as int,
            ));
        }
        lemma_run_round_trip::<A>(items, offset, (k - 1) as nat, bytes);
        assert(bytes.subrange(mid as int, mid + item.len()) =~= item) by {
            assert(bytes.subrange(mid as int, mid + item.len()) =~= wire.subrange(
                before.len() as int,
                wire.len() as int,
            ));
        }
        <Buffer as Formatter<A>>::round_trip(items[k - 1], mid, bytes);
        assert(items.take(k as int) =~= items.take(k - 1).push(items[k - 1]));
    }
}

impl Buffer {
    /// Writes `items` one behind the other from `offset`; returns the number of bytes.
    fn store_run<A: DeepView>(&mut self, offset: u64, items: Vec<A>) -> (r: ZeroFormatterResult<
        u64,
    >) where Buffer: Formatter<A>
        requires
            offset <= LIMIT,
            offset <= old(self)@.bytes.len(),
        ensures
            match run_encoding::<A>(items.deep_view(), offset, items@.len()) {
                Ok(wire) => {
                    &&& r matches Ok(n)
                    &&& n == wire.len()
                    &&& offset + wire.len() <= LIMIT
                    &&& final(self)@.bytes == overwrite(
                        old(self)@.bytes,
                        offset as int,
                        wire,
                    )
                },
                Err(f) => {
                    &&& r matches Err(e)
                    &&& e@ == f
                    &&& kept_before(old(self)@.bytes, final(self)@.bytes, offset as int)
                },
            },
    {
        let ghost all = items.deep_view();
        let ghost count = items@.len();
        let mut written: u64 = 0;
        proof {
            assert(overwrite(old(self)@.bytes, offset as int, Seq::<u8>::empty())
                =~= old(self)@.bytes);
        }
        for item in it: items
            invariant
                offset <= LIMIT,
                it.seq() == items@,
                all == items.deep_view(),
                count == items@.len(),
                run_encoding::<A>(all, offset, it.index() as nat) matches Ok(wire) && {
                    &&& written == wire.len()
                    &&& offset + wire.len() <= LIMIT
                    &&& self@.bytes == overwrite(
                        old(self)@.bytes,
                        offset as int,
                        wire,
                    )
                },
        {
            let ghost before = run_encoding::<A>(all, offset, it.index() as nat)->Ok_0;
            let ghost k = it.index() as int;
            proof {
                assert(item.deep_view() == all[k]);
            }
            match <Buffer as Formatter<A>>::serialize(self, offset + written, item) {
                Ok(n) => {
                    proof {
                        let more = <Buffer as Formatter<A>>::encoding(
                            all[k],
                            (offset + before.len()) as u64,
                        )->Ok_0;
                        lemma_overwrite_append(old(self)@.bytes, offset as int, before, more);
                    }
                    written = written + n as u64;
                },
                Err(e) => {
                    proof {
                        lemma_run_failure_stays::<A>(all, offset, (k + 1) as nat, count);
                    }
                    return Err(e);
                },
            }
        }
        Ok(written)
    }
}

/// Once an item of a run cannot be written, no longer run can be.
pub proof fn lemma_run_failure_stays<A: DeepView>(items: Seq<A::V>, offset: u64, k: nat, n: nat) where
    Buffer: Formatter<A>,

    requires
        k <= n,
        run_encoding::<A>(items, offset, k) is Err,
    ensures
        run_encoding::<A>(items, offset, n) == run_encoding::<A>(items, offset, k),
    decreases n,
{
    if k < n {
        lemma_run_failure_stays::<A>(items, offset, k, (n - 1) as nat);
    }
}

impl Buffer {
    /// Reads `count` values one behind the other from `offset`.
    fn fetch_run<A: DeepView>(&mut self, offset: &mut u64, count: u32) -> (r: ZeroFormatterResult<
        Vec<A>,
    >) where Buffer: Formatter<A>
        ensures
            final(self)@.bytes == old(self)@.bytes,
            match run_decoding::<A>(old(self)@.bytes, *old(offset), count as nat) {
                Ok((items, next)) => {
                    &&& r matches Ok(v)
                    &&& v.deep_view() == items
                    &&& *final(offset) == next
                    &&& final(self)@.position == (if count == 0 {
                        old(self)@.position
                    } else {
                        next
                    })
                },
                Err(f) => r matches Err(e) && e@ == f,
            },
    {
        let ghost start = *offset;
        let mut v: Vec<A> = Vec::new();
        let mut i: u32 = 0;
        proof {
            assert(v.deep_view() =~= Seq::<A::V>::empty());
        }
        while i < count
            invariant
                i <= count,
                start == *old(offset),
                self@.bytes == old(self)@.bytes,
                run_decoding::<A>(self@.bytes, start, i as nat) matches Ok((items, next)) && {
                    &&& v.deep_view() == items
                    &&& *offset == next
                    &&& self@.position == (if i == 0 {
                        old(self)@.position
                    } else {
                        next
                    })
                },
            decreases count - i,
        {
            let ghost before = v.deep_view();
            match <Buffer as Formatter<A>>::deserialize(self, offset) {
                Ok(item) => {
                    v.push(item);
                    proof {
                        assert(v.deep_view() =~= before.push(item.deep_view()));
                    }
                },
                Err(e) => {
                    proof {
                        assert(run_decoding::<A>(self@.bytes, start, (i + 1) as nat) == Err::<
                            (Seq<A::V>, u64),
                            Failure,
                        >(e@));
                        lemma_run_decoding_failure_stays::<A>(
                            self@.bytes,
                            start,
                            (i + 1) as nat,
                            count as nat,
                        );
                    }
                    return Err(e);
                },
            }
            i = i + 1;
        }
        Ok(v)
    }
}

/// Once an item of a run cannot be read, no longer run can be.
pub proof fn lemma_run_decoding_failure_stays<A: DeepView>(
    bytes: Seq<u8>,
    offset: u64,
    k: nat,
    n: nat,
) where Buffer: Formatter<A>
    requires
        k <= n,
        run_decoding::<A>(bytes, offset, k) is Err,
    ensures
        run_decoding::<A>(bytes, offset, n) == run_decoding::<A>(bytes, offset, k),
    decreases n,
{
    if k < n {
        lemma_run_decoding_failure_stays::<A>(bytes, offset, k, (n - 1) as nat);
    }
}

impl<A: DeepView> Formatter<Vec<A>> for Buffer where Buffer: Formatter<A> {
    open spec fn encoding(value: Seq<A::V>, offset: u64) -> Result<Seq<u8>, Failure> {
        sequence_encoding::<A>(value, offset)
    }

    /// A negative count is malformed where a sequence has to be there.
    open spec fn decoding(bytes: Seq<u8>, offset: u64) -> Result<(Seq<A::V>, u64), Failure> {
        match signed_at(bytes, offset, 4) {
            Err(f) => Err(f),
            Ok((count, start)) => counted_decoding::<A>(bytes, offset, count, start),
        }
    }

    proof fn round_trip(value: Seq<A::V>, offset: u64, bytes: Seq<u8>) {
        lemma_sequence_round_trip::<A>(value, offset, bytes);
    }

    fn serialize(&mut self, offset: u64, value: Vec<A>) -> (r: ZeroFormatterResult<i32>) {
        self.store_sequence(offset, value)
    }

    fn deserialize(&mut self, offset: &mut u64) -> (r: ZeroFormatterResult<Vec<A>>) {
        let at: u64 = *offset;
        let back: u64 = self.position();
        let count: i32 = <Buffer as Formatter<i32>>::deserialize(self, offset)?;
        proof {
            lemma_signed_at_fits(self@.bytes, at, 4);
            lemma_radix_values();
        }
        if count < 0 {
            *offset = at;
            self.seek(back);
            return Err(ZeroFormatterError::InvalidBinary(at));
        }
        match self.fetch_run::<A>(offset, count as u32) {
            Ok(v) => Ok(v),
            Err(e) => {
                *offset = at;
                self.seek(back);
                Err(e)
            },
        }
    }
}

/// An encoded sequence is read back as its elements.
pub proof fn lemma_sequence_round_trip<A: DeepView>(items: Seq<A::V>, offset: u64, bytes: Seq<u8>) where
    Buffer: Formatter<A>,

    requires
        sequence_encoding::<A>(items, offset) is Ok,
        holds(bytes, offset as int, sequence_encoding::<A>(items, offset)->Ok_0),
    ensures
        offset + sequence_encoding::<A>(items, offset)->Ok_0.len() <= LIMIT,
        signed_at(bytes, offset, 4) == Ok::<(int, u64), Failure>(
            (items.len() as int, (offset + 4) as u64),
        ),
        run_decoding::<A>(bytes, (offset + 4) as u64, items.len()) == Ok::<(Seq<A::V>, u64), Failure>(
            (items, (offset + sequence_encoding::<A>(items, offset)->Ok_0.len()) as u64),
        ),
{
    let head = le_bytes(items.len(), 4);
    let run = run_encoding::<A>(items, (offset + 4) as u64, items.len())->Ok_0;
    let wire = head + run;
    lemma_radix_values();
    lemma_le_bytes_len(items.len(), 4);
    lemma_le_value_of_bytes(items.len(), 4);
    assert(bytes.subrange(offset as int, offset + 4) =~= head) by {
        assert(bytes.subrange(offset as int, offset + 4) =~= wire.subrange(0, 4));
    }
    assert(bytes.subrange(offset + 4, offset + 4 + run.len()) =~= run) by {
        assert(bytes.subrange(offset + 4, offset + 4 + run.len()) =~= wire.subrange(
            4,
            wire.len() as int,
        ));
    }
    lemma_run_round_trip::<A>(items, (offset + 4) as u64, items.len(), bytes);
    assert(items.take(items.len() as int) =~= items);
}

impl Buffer {
    /// Writes the count of `items` at `offset` and the items behind it.
    fn store_sequence<A: DeepView>(&mut self, offset: u64, items: Vec<A>) -> (r:
        ZeroFormatterResult<i32>) where Buffer: Formatter<A>
        ensures
            match sequence_encoding::<A>(items.deep_view(), offset) {
                Ok(wire) => {
                    &&& r matches Ok(n)
                    &&& n == wire.len()
                    &&& offset + wire.len() <= LIMIT
                    &&& final(self)@.bytes == overwrite(
                        old(self)@.bytes,
                        offset as int,
                        wire,
                    )
                    &&& final(self)@.position == offset + wire.len()
                },
                Err(f) => {
                    &&& r matches Err(e)
                    &&& e@ == f
                    &&& final(self)@.position == old(self)@.position
                    &&& kept_before(old(self)@.bytes, final(self)@.bytes, offset as int)
                },
            },
    {
        let count: usize = items.len();
        if count > i32::MAX as usize {
            return Err(ZeroFormatterError::IoError(IoErrorKind::InvalidInput));
        }
        if offset > LIMIT - 4 {
            return Err(ZeroFormatterError::IoError(IoErrorKind::StorageFull));
        }
        let back: u64 = self.position();
        let head: [u8; 4] = i32_to_le(count as i32);
        proof {
            lemma_le_bytes_len(count as nat, 4);
        }
        self.poke(offset, array_as_slice(&head));
        match self.store_run::<A>(offset + 4, items) {
            Ok(n) => {
                proof {
                    let run = run_encoding::<A>(
                        items.deep_view(),
                        (offset + 4) as u64,
                        items@.len(),
                    )->Ok_0;
                    lemma_overwrite_append(old(self)@.bytes, offset as int, head@, run);
                }
                self.seek(offset + 4 + n);
                Ok((n + 4) as i32)
            },
            Err(e) => {
                self.seek(back);
                Err(e)
            },
        }
    }
}

/// The bytes of an absent sequence: the count -1.
pub open spec fn absent_wire() -> Seq<u8> {
    le_bytes(unsigned(-1, 4), 4)
}

impl<A: DeepView> Formatter<Option<Vec<A>>> for Buffer where Buffer: Formatter<A> {
    open spec fn encoding(value: Option<Seq<A::V>>, offset: u64) -> Result<Seq<u8>, Failure> {
        match value {
            None => placed(absent_wire(), offset),
            Some(items) => sequence_encoding::<A>(items, offset),
        }
    }

    /// The count -1 is the absent sequence; a count below it is malformed.
    open spec fn decoding(bytes: Seq<u8>, offset: u64) -> Result<(Option<Seq<A::V>>, u64), Failure> {
        match signed_at(bytes, offset, 4) {
            Err(f) => Err(f),
            Ok((count, start)) => {
                if count == -1 {
                    Ok((None, start))
                } else {
                    match counted_decoding::<A>(bytes, offset, count, start) {
                        Err(f) => Err(f),
                        Ok((items, next)) => Ok((Some(items), next)),
                    }
                }
            },
        }
    }

    proof fn round_trip(value: Option<Seq<A::V>>, offset: u64, bytes: Seq<u8>) {
        match value {
            None => {
                lemma_radix_values();
                lemma_le_bytes_len(unsigned(-1, 4), 4);
                lemma_le_value_of_bytes(unsigned(-1, 4), 4);
            },
            Some(items) => {
                lemma_sequence_round_trip::<A>(items, offset, bytes);
            },
        }
    }

    fn serialize(&mut self, offset: u64, value: Option<Vec<A>>) -> (r: ZeroFormatterResult<i32>) {
        match value {
            None => {
                proof {
                    lemma_radix_values();
                    lemma_le_bytes_len(unsigned(-1, 4), 4);
                }
                <Buffer as Formatter<i32>>::serialize(self, offset, -1i32)
            },
            Some(items) => self.store_sequence(offset, items),
        }
    }

    fn deserialize(&mut self, offset: &mut u64) -> (r: ZeroFormatterResult<Option<Vec<A>>>) {
        let at: u64 = *offset;
        let back: u64 = self.position();
        let count: i32 = <Buffer as Formatter<i32>>::deserialize(self, offset)?;
        proof {
            lemma_signed_at_fits(self@.bytes, at, 4);
            lemma_radix_values();
        }
        if count == -1 {
            return Ok(None);
        }
        if count < 0 {
            *offset = at;
            self.seek(back);
            return Err(ZeroFormatterError::InvalidBinary(at));
        }
        match self.fetch_run::<A>(offset, count as u32) {
            Ok(v) => Ok(Some(v)),
            Err(e) => {
                *offset = at;
                self.seek(back);
                Err(e)
            },
        }
    }
}

} // verus!

//! Blocks of bytes that take several reads or writes.

use vstd::prelude::*;
use crate::arrival::put;
use crate::receive::sum;

verus! {

/// Where a buffer stands that is being filled.
#[derive(Clone, Copy)]
pub enum FillStep {
    /// Read on, to this place of the buffer.
    More(usize),
    /// No more can be had: this many bytes are there.
    Done(usize),
}

/// A buffer of `len` bytes with `got` of them filled.
pub open spec fn filled(got: usize, len: usize) -> FillStep {
    if got < len {
        FillStep::More(got)
    } else {
        FillStep::Done(got)
    }
}

/// After a read of `n` bytes; none means that nothing is left to read.
pub open spec fn after_read(s: FillStep, len: usize, n: usize) -> FillStep {
    match s {
        FillStep::More(got) => if n == 0 {
            FillStep::Done(got)
        } else {
            filled((got + n) as usize, len)
        },
        FillStep::Done(got) => s,
    }
}

/// The first step of filling a buffer of `len` bytes.
pub fn start_fill(len: usize) -> (r: FillStep)
    ensures
        r == filled(0, len),
{
    if 0 < len {
        FillStep::More(0)
    } else {
        FillStep::Done(0)
    }
}

/// What follows a read of `n` bytes at `got` of a buffer of `len` bytes.
pub fn fill(got: usize, len: usize, n: usize) -> (r: FillStep)
    requires
        got + n <= len,
    ensures
        r == after_read(FillStep::More(got), len, n),
{
    if n == 0 {
        FillStep::Done(got)
    } else if got + n < len {
        FillStep::More(got + n)
    } else {
        FillStep::Done(got + n)
    }
}

/// The step after several reads.
pub open spec fn after_fills(len: usize, reads: Seq<u64>) -> FillStep
    decreases reads.len(),
{
    if reads.len() == 0 {
        filled(0, len)
    } else {
        after_read(after_fills(len, reads.drop_last()), len, reads.last() as usize)
    }
}

/// A buffer holds what the reads brought, one behind the other: while each
/// brings something, it is read on exactly until the buffer is full.
pub proof fn law_filled_in_order(len: usize, reads: Seq<u64>)
    requires
        sum(reads) <= len,
        forall|i: int| 0 <= i < reads.len() ==> #[trigger] reads[i] > 0,
    ensures
        after_fills(len, reads) == filled(sum(reads) as usize, len),
    decreases reads.len(),
{
    if reads.len() > 0 {
        let init = reads.drop_last();
        assert forall|i: int| 0 <= i < init.len() implies #[trigger] init[i] > 0 by {
            assert(init[i] == reads[i]);
        }
        assert(reads[reads.len() - 1] > 0);
        law_filled_in_order(len, init);
    }
}

/// What a file has of the range of `len` bytes from `from` on: all of it, or what
/// there is up to the file's end.
pub open spec fn range_of(file: Seq<u8>, from: int, len: int) -> Seq<u8> {
    if from >= file.len() {
        Seq::empty()
    } else if from + len <= file.len() {
        file.subrange(from, from + len)
    } else {
        file.skip(from)
    }
}

/// Reads that a file can bring for a buffer of `len` bytes, from `from` on: each
/// brings what there is room for and no more than the file has, and nothing only
/// at the file's end.
pub open spec fn reads_of(file: Seq<u8>, from: int, len: usize, reads: Seq<u64>) -> bool
    decreases reads.len(),
{
    reads.len() > 0 ==> {
        &&& reads_of(file, from, len, reads.drop_last())
        &&& match after_fills(len, reads.drop_last()) {
            FillStep::More(got) => {
                &&& got + reads.last() <= len
                &&& reads.last() > 0 ==> from + got + reads.last() <= file.len()
                &&& reads.last() == 0 ==> from + got >= file.len()
            },
            FillStep::Done(_) => false,
        }
    }
}

/// The bytes that some reads bring into the buffer, each from where the file was
/// read up to.
pub open spec fn bytes_read(file: Seq<u8>, from: int, len: usize, reads: Seq<u64>) -> Seq<u8>
    decreases reads.len(),
{
    if reads.len() == 0 {
        Seq::empty()
    } else {
        let before = bytes_read(file, from, len, reads.drop_last());
        match after_fills(len, reads.drop_last()) {
            FillStep::More(got) => if reads.last() > 0 {
                before + file.subrange(from + got, from + got + reads.last())
            } else {
                before
            },
            FillStep::Done(_) => before,
        }
    }
}

proof fn lemma_bytes_read(file: Seq<u8>, from: int, len: usize, reads: Seq<u64>)
    requires
        0 <= from,
        reads_of(file, from, len, reads),
    ensures
        match after_fills(len, reads) {
            FillStep::More(got) => {
                &&& got < len
                &&& got > 0 ==> from + got <= file.len()
                &&& bytes_read(file, from, len, reads) == range_of(file, from, got as int)
                &&& bytes_read(file, from, len, reads).len() == got
            },
            FillStep::Done(got) => {
                &&& bytes_read(file, from, len, reads) == range_of(file, from, len as int)
                &&& bytes_read(file, from, len, reads).len() == got
            },
        },
    decreases reads.len(),
{
    if reads.len() == 0 {
        assert(range_of(file, from, 0) =~= Seq::<u8>::empty());
    } else {
        lemma_bytes_read(file, from, len, reads.drop_last());
        let before = bytes_read(file, from, len, reads.drop_last());
        let n = reads.last() as int;
        if let FillStep::More(got) = after_fills(len, reads.drop_last()) {
            if n > 0 {
                assert(before + file.subrange(from + got, from + got + n) =~= range_of(
                    file,
                    from,
                    got + n,
                ));
            } else {
                assert(before =~= range_of(file, from, len as int));
            }
        }
    }
}

/// However its reads are cut, a range comes out as the file has it: once nothing
/// more can be had, the buffer holds all of the range, or what there is of it.
pub proof fn law_range_read(file: Seq<u8>, from: int, len: usize, reads: Seq<u64>)
    requires
        0 <= from,
        reads_of(file, from, len, reads),
        after_fills(len, reads) is Done,
    ensures
        bytes_read(file, from, len, reads) == range_of(file, from, len as int),
        after_fills(len, reads) == FillStep::Done(range_of(file, from, len as int).len() as usize),
{
    lemma_bytes_read(file, from, len, reads);
}

/// Two ranges next to each other, read one after the other, are the range read at
/// once, so that reading piece by piece gives the whole file.
pub proof fn law_ranges_join(
    file: Seq<u8>,
    from: int,
    a: usize,
    b: usize,
    reads_a: Seq<u64>,
    reads_b: Seq<u64>,
    reads: Seq<u64>,
)
    requires
        0 <= from,
        a + b <= usize::MAX,
        reads_of(file, from, a, reads_a),
        after_fills(a, reads_a) is Done,
        reads_of(file, from + a, b, reads_b),
        after_fills(b, reads_b) is Done,
        reads_of(file, from, (a + b) as usize, reads),
        after_fills((a + b) as usize, reads) is Done,
    ensures
        bytes_read(file, from, a, reads_a) + bytes_read(file, from + a, b, reads_b) == bytes_read(
            file,
            from,
            (a + b) as usize,
            reads,
        ),
{
    law_range_read(file, from, a, reads_a);
    law_range_read(file, from + a, b, reads_b);
    law_range_read(file, from, (a + b) as usize, reads);
    assert(range_of(file, from, a as int) + range_of(file, from + a, b as int) =~= range_of(
        file,
        from,
        a + b,
    ));
}

/// Where a block stands that is being written.
#[derive(Clone, Copy)]
pub enum WriteStep {
    /// Write the block from `from` on at `off` of the file.
    More { off: u64, from: usize },
    /// All of it is written.
    Done,
    /// The file takes nothing more.
    Stuck,
}

/// A block of `len` bytes with `from` of them written, whose rest goes to `off`.
pub open spec fn written(off: u64, from: usize, len: usize) -> WriteStep {
    if from < len {
        WriteStep::More { off, from }
    } else {
        WriteStep::Done
    }
}

/// After a write of `n` bytes; none means that the file takes nothing more.
pub open spec fn after_write(s: WriteStep, len: usize, n: usize) -> WriteStep {
    match s {
        WriteStep::More { off, from } => if n == 0 {
            WriteStep::Stuck
        } else {
            written((off + n) as u64, (from + n) as usize, len)
        },
        _ => s,
    }
}

/// The first step of writing a block of `len` bytes at `off` of a file.
pub fn start_write(off: u64, len: usize) -> (r: WriteStep)
    ensures
        r == written(off, 0, len),
{
    if 0 < len {
        WriteStep::More { off, from: 0 }
    } else {
        WriteStep::Done
    }
}

/// What follows a write of `n` bytes of a block of `len` bytes, of which `from`
/// were written before, at `off` of the file.
pub fn write_on(off: u64, from: usize, len: usize, n: usize) -> (r: WriteStep)
    requires
        from + n <= len,
        off + n <= u64::MAX,
    ensures
        r == after_write(WriteStep::More { off, from }, len, n),
{
    if n == 0 {
        WriteStep::Stuck
    } else if from + n < len {
        WriteStep::More { off: off + n as u64, from: from + n }
    } else {
        WriteStep::Done
    }
}

/// The step after several writes of a block that starts at `off` of the file.
pub open spec fn after_writes(off: u64, len: usize, writes: Seq<u64>) -> WriteStep
    decreases writes.len(),
{
    if writes.len() == 0 {
        written(off, 0, len)
    } else {
        after_write(after_writes(off, len, writes.drop_last()), len, writes.last() as usize)
    }
}

/// A block is written in order and without a gap: what is left of it goes right
/// behind what is written, until all of it is.
pub proof fn law_written_in_order(off: u64, len: usize, writes: Seq<u64>)
    requires
        sum(writes) <= len,
        off + len <= u64::MAX,
        forall|i: int| 0 <= i < writes.len() ==> #[trigger] writes[i] > 0,
    ensures
        after_writes(off, len, writes) == written(
            (off + sum(writes)) as u64,
            sum(writes) as usize,
            len,
        ),
    decreases writes.len(),
{
    if writes.len() > 0 {
        let init = writes.drop_last();
        assert forall|i: int| 0 <= i < init.len() implies #[trigger] init[i] > 0 by {
            assert(init[i] == writes[i]);
        }
        assert(writes[writes.len() - 1] > 0);
        law_written_in_order(off, len, init);
    }
}

/// A file after several writes of a block that starts at `off` of it: each write
/// brings what comes next of the block to where it goes.
pub open spec fn bytes_written(c: Seq<u8>, off: u64, buf: Seq<u8>, writes: Seq<u64>) -> Seq<u8>
    decreases writes.len(),
{
    if writes.len() == 0 {
        c
    } else {
        let before = bytes_written(c, off, buf, writes.drop_last());
        match after_writes(off, buf.len() as usize, writes.drop_last()) {
            WriteStep::More { off: at, from } => put(
                before,
                at as int,
                buf.subrange(from as int, from + writes.last()),
            ),
            _ => before,
        }
    }
}

proof fn lemma_bytes_written(c: Seq<u8>, off: u64, buf: Seq<u8>, writes: Seq<u64>)
    requires
        buf.len() <= usize::MAX,
        sum(writes) <= buf.len(),
        off + buf.len() <= u64::MAX,
        forall|i: int| 0 <= i < writes.len() ==> #[trigger] writes[i] > 0,
    ensures
        bytes_written(c, off, buf, writes) == put(c, off as int, buf.take(sum(writes) as int)),
    decreases writes.len(),
{
    if writes.len() > 0 {
        let init = writes.drop_last();
        assert forall|i: int| 0 <= i < init.len() implies #[trigger] init[i] > 0 by {
            assert(init[i] == writes[i]);
        }
        assert(writes[writes.len() - 1] > 0);
        lemma_bytes_written(c, off, buf, init);
        law_written_in_order(off, buf.len() as usize, init);
        let done = sum(init) as int;
        let n = writes.last() as int;
        assert(put(
            put(c, off as int, buf.take(done)),
            off + done,
            buf.subrange(done, done + n),
        ) =~= put(c, off as int, buf.take(done + n)));
    }
}

/// However its writes are cut, a block is in the file as it is: where each brings
/// something and together they bring all of it, the file is what one write of the
/// whole block makes of it, and the writing is done.
pub proof fn law_block_written(c: Seq<u8>, off: u64, buf: Seq<u8>, writes: Seq<u64>)
    requires
        buf.len() <= usize::MAX,
        off + buf.len() <= u64::MAX,
        sum(writes) == buf.len(),
        forall|i: int| 0 <= i < writes.len() ==> #[trigger] writes[i] > 0,
    ensures
        bytes_written(c, off, buf, writes) == put(c, off as int, buf),
        after_writes(off, buf.len() as usize, writes) == WriteStep::Done,
{
    lemma_bytes_written(c, off, buf, writes);
    law_written_in_order(off, buf.len() as usize, writes);
    assert(buf.take(buf.len() as int) =~= buf);
}

/// A write that brings nothing ends the writing as failed, and a read that brings
/// nothing ends the reading with what is there.
pub proof fn law_nothing_ends_it(off: u64, from: usize, len: usize)
    ensures
        after_write(WriteStep::More { off, from }, len, 0) == WriteStep::Stuck,
        after_read(FillStep::More(from), len, 0) == FillStep::Done(from),
        written(off, 0, len) == WriteStep::Done <==> len == 0,
        filled(0, len) == FillStep::Done(0) <==> len == 0,
{
}

} // verus!

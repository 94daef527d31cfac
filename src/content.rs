//! The byte buffer of one regular file: bounded reads, writes that grow the
//! file, and truncation.

use vstd::prelude::*;

verus! {

/// What a read of at most `size` bytes at `offset` returns: the bytes from
/// `offset` on, cut at the end of the buffer; nothing at or past the end.
pub open spec fn read_spec(b: Seq<u8>, offset: int, size: int) -> Seq<u8> {
    if offset >= b.len() {
        Seq::empty()
    } else if offset + size <= b.len() {
        b.subrange(offset, offset + size)
    } else {
        b.subrange(offset, b.len() as int)
    }
}

/// The buffer after writing `d` at `offset`: grown to reach the write's end
/// if needed, with zeros between the old end and `offset`.
pub open spec fn write_spec(b: Seq<u8>, offset: int, d: Seq<u8>) -> Seq<u8> {
    let len = if offset + d.len() > b.len() { offset + d.len() } else { b.len() as int };
    Seq::new(
        len as nat,
        |i: int|
            if offset <= i < offset + d.len() {
                d[i - offset]
            } else if i < b.len() {
                b[i]
            } else {
                0u8
            },
    )
}

/// The buffer resized to `n` bytes: its tail dropped, or zeros added.
pub open spec fn resize_spec(b: Seq<u8>, n: int) -> Seq<u8> {
    Seq::new(n as nat, |i: int| if i < b.len() { b[i] } else { 0u8 })
}

/// Reads at most `size` bytes from `offset`. Past the end the result is
/// empty, never an error; a read that spans the end returns what is there.
pub fn read(buf: &[u8], offset: u64, size: u64) -> (r: Vec<u8>)
    ensures
        r@ == read_spec(buf@, offset as int, size as int),
        offset >= buf@.len() ==> r@.len() == 0,
        offset < buf@.len() < offset + size ==> r@ == buf@.subrange(offset as int, buf@.len() as int),
{
    let mut out: Vec<u8> = Vec::new();
    if offset as u128 >= buf.len() as u128 {
        return out;
    }
    let start = offset as usize;
    let end: usize = if (offset as u128) + (size as u128) <= buf.len() as u128 {
        (offset + size) as usize
    } else {
        buf.len()
    };
    let mut i: usize = start;
    while i < end
        invariant
            start <= i <= end <= buf@.len(),
            out@ == buf@.subrange(start as int, i as int),
        decreases end - i,
    {
        out.push(buf[i]);
        i = i + 1;
        proof {
            assert(out@ =~= buf@.subrange(start as int, i as int));
        }
    }
    proof {
        assert(out@ =~= read_spec(buf@, offset as int, size as int));
    }
    out
}

/// Writes `data` at `offset`, growing the buffer with zeros up to `offset`
/// where it ends before.
pub fn write(buf: &mut Vec<u8>, offset: usize, data: &[u8])
    requires
        offset + data@.len() <= usize::MAX,
    ensures
        final(buf)@ == write_spec(old(buf)@, offset as int, data@),
        final(buf)@.len() == if offset + data@.len() > old(buf)@.len() {
            offset + data@.len()
        } else {
            old(buf)@.len() as int
        },
        forall|i: int| old(buf)@.len() <= i < offset ==> final(buf)@[i] == 0u8,
        forall|i: int| offset <= i < offset + data@.len() ==> final(buf)@[i] == data@[i - offset],
{
    let ghost b0 = buf@;
    let end = offset + data.len();
    if buf.len() < end {
        resize(buf, end);
    }
    let mut j: usize = 0;
    while j < data.len()
        invariant
            end == offset + data@.len(),
            buf@.len() == if end > b0.len() { end as int } else { b0.len() as int },
            j <= data@.len(),
            forall|i: int|
                0 <= i < buf@.len() ==> #[trigger] buf@[i] == (if offset <= i < offset + j {
                    data@[i - offset]
                } else if i < b0.len() {
                    b0[i]
                } else {
                    0u8
                }),
        decreases data@.len() - j,
    {
        buf.set(offset + j, data[j]);
        j = j + 1;
    }
    proof {
        assert(buf@ =~= write_spec(b0, offset as int, data@));
    }
}

/// Resizes the buffer to `size` bytes, dropping the tail or adding zeros.
pub fn resize(buf: &mut Vec<u8>, size: usize)
    ensures
        final(buf)@ == resize_spec(old(buf)@, size as int),
{
    let ghost b0 = buf@;
    if size <= buf.len() {
        buf.truncate(size);
    } else {
        while buf.len() < size
            invariant
                b0.len() <= buf@.len() <= size,
                forall|i: int| 0 <= i < buf@.len() ==> #[trigger] buf@[i] == (if i < b0.len() { b0[i] } else { 0u8 }),
            decreases size - buf@.len(),
        {
            buf.push(0u8);
        }
    }
    proof {
        assert(buf@ =~= resize_spec(b0, size as int));
    }
}

} // verus!

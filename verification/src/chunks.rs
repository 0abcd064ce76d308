//! Runs of bytes cut into chunks of one size.

use vstd::prelude::*;

verus! {

/// The `index`-th run of `size` bytes in `bytes`.
pub open spec fn chunk(bytes: Seq<u8>, index: int, size: nat) -> Seq<u8> {
    bytes.subrange(index * size, (index + 1) * size)
}

/// A run of `count` chunks holds each of its chunks whole.
pub proof fn lemma_chunk_bounds(index: int, size: nat, count: nat)
    requires
        0 <= index < count,
    ensures
        0 <= index * size,
        index * size + size == (index + 1) * size,
        (index + 1) * size <= count * size,
{
    assert(0 <= index * size) by (nonlinear_arith)
        requires
            0 <= index,
    ;
    assert(index * size + size == (index + 1) * size) by (nonlinear_arith);
    assert((index + 1) * size <= count * size) by (nonlinear_arith)
        requires
            index + 1 <= count,
    ;
}

/// Replacing the chunks `start..end` of a run replaces those chunks and
/// keeps the others.
pub proof fn lemma_chunk_of_splice(
    column: Seq<u8>,
    bytes: Seq<u8>,
    size: nat,
    count: nat,
    start: int,
    end: int,
    point: int,
)
    requires
        column.len() == count * size,
        0 <= start <= end <= count,
        bytes.len() == (end - start) * size,
        0 <= point < count,
    ensures
        0 <= start * size <= end * size <= count * size,
        chunk(
            column.subrange(0, start * size) + bytes + column.subrange(
                end * size,
                column.len() as int,
            ),
            point,
            size,
        ) == if start <= point < end {
            chunk(bytes, point - start, size)
        } else {
            chunk(column, point, size)
        },
{
    assert(0 <= start * size <= end * size <= count * size) by (nonlinear_arith)
        requires
            0 <= start <= end <= count,
    ;
    assert((end - start) * size == end * size - start * size) by (nonlinear_arith);
    lemma_chunk_bounds(point, size, count);
    let spliced = column.subrange(0, start * size) + bytes + column.subrange(
        end * size,
        column.len() as int,
    );
    if start <= point < end {
        lemma_chunk_bounds(point - start, size, (end - start) as nat);
        assert((point - start) * size == point * size - start * size) by (nonlinear_arith);
        assert(point * size >= start * size) by (nonlinear_arith)
            requires
                point >= start,
        ;
        assert((point + 1) * size <= end * size) by (nonlinear_arith)
            requires
                point + 1 <= end,
        ;
        assert(chunk(spliced, point, size) =~= chunk(bytes, point - start, size));
    } else if point < start {
        assert((point + 1) * size <= start * size) by (nonlinear_arith)
            requires
                point + 1 <= start,
        ;
        assert(chunk(spliced, point, size) =~= chunk(column, point, size));
    } else {
        assert(point * size >= end * size) by (nonlinear_arith)
            requires
                point >= end,
        ;
        assert(chunk(spliced, point, size) =~= chunk(column, point, size));
    }
}

/// Runs of the same chunks are the same run.
pub proof fn lemma_chunks_determine(first: Seq<u8>, second: Seq<u8>, size: nat, count: nat)
    requires
        first.len() == count * size,
        second.len() == count * size,
        forall|c: int| 0 <= c < count ==> chunk(first, c, size) == chunk(second, c, size),
    ensures
        first == second,
{
    assert forall|i: int| 0 <= i < first.len() implies first[i] == second[i] by {
        if size > 0 {
            let c = i / size as int;
            vstd::arithmetic::div_mod::lemma_fundamental_div_mod(i, size as int);
            assert(0 <= c < count) by (nonlinear_arith)
                requires
                    i == size * c + i % (size as int),
                    0 <= i % (size as int) < size,
                    0 <= i < count * size,
            {
            }
            lemma_chunk_bounds(c, size, count);
            assert(c * size == size * c) by (nonlinear_arith);
            assert(chunk(first, c, size)[i - c * size] == first[i]);
            assert(chunk(second, c, size)[i - c * size] == second[i]);
        } else {
            assert(count * size == 0) by (nonlinear_arith)
                requires
                    size == 0,
            {
            }
        }
    }
    assert(first =~= second);
}

/// Overwrites `count` bytes of `buf` from position `at` on with the bytes of
/// `source` from position `from` on.
pub fn copy_bytes(buf: &mut [u8], at: usize, source: &[u8], from: usize, count: usize)
    requires
        at + count <= old(buf)@.len(),
        from + count <= source@.len(),
    ensures
        final(buf)@ == old(buf)@.subrange(0, at as int) + source@.subrange(
            from as int,
            from + count,
        ) + old(buf)@.subrange(at + count, old(buf)@.len() as int),
{
    let buf_len: usize = buf.len();
    let source_len: usize = source.len();
    let mut k: usize = 0;
    while k < count
        invariant
            k <= count,
            buf_len == buf@.len(),
            buf@.len() == old(buf)@.len(),
            at + count <= buf_len,
            from + count <= source_len,
            source_len == source@.len(),
            buf@ == old(buf)@.subrange(0, at as int) + source@.subrange(from as int, from + k)
                + old(buf)@.subrange(at + k, old(buf)@.len() as int),
        decreases count - k,
    {
        buf[at + k] = source[from + k];
        assert(buf@ =~= old(buf)@.subrange(0, at as int) + source@.subrange(
            from as int,
            from + k + 1,
        ) + old(buf)@.subrange(at + k + 1, old(buf)@.len() as int));
        k += 1;
    }
    assert(buf@ =~= old(buf)@.subrange(0, at as int) + source@.subrange(from as int, from + count)
        + old(buf)@.subrange(at + count, old(buf)@.len() as int));
}

} // verus!

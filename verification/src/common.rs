//! Small utilities shared by the routing passes.

use vstd::prelude::*;

verus! {

/// A table of strings that are referred to by their index.
pub trait IcStr {
    /// The strings of the table.
    spec fn strings(&self) -> Seq<Seq<char>>;

    /// The string with the index `id`.
    fn ic_str(&self, id: u32) -> (r: &str)
        requires
            id < self.strings().len(),
        ensures
            r@ == self.strings()[id as int],
    ;
}

/// Length of the slice with the index `k` where `len` items are dealt into
/// `slices` slices as evenly as possible: every slice gets the quotient, and
/// the remainder goes to the earliest slices, one item each.
pub open spec fn slice_len(len: int, slices: int, k: int) -> int {
    if k < len % slices {
        len / slices + 1
    } else {
        len / slices
    }
}

/// Offset of the slice with the index `k`: the lengths of the slices before
/// it, added up.
pub open spec fn slice_offset(len: int, slices: int, k: int) -> int {
    k * (len / slices) + if k < len % slices {
        k
    } else {
        len % slices
    }
}

/// The number of slices that are not empty.
pub open spec fn slice_count(len: int, slices: int) -> int {
    if len < slices {
        len
    } else {
        slices
    }
}

/// The slices lie one behind the other, the slices that are not empty come
/// first, and together they hold all the items.
pub proof fn lemma_slices_partition(len: int, slices: int, k: int)
    requires
        0 <= len,
        0 < slices,
        0 <= k < slices,
    ensures
        slice_offset(len, slices, 0) == 0,
        slice_offset(len, slices, k + 1) == slice_offset(len, slices, k) + slice_len(
            len,
            slices,
            k,
        ),
        slice_offset(len, slices, k + 1) <= len,
        slice_offset(len, slices, slices) == len,
        (slice_len(len, slices, k) > 0) == (k < slice_count(len, slices)),
        0 <= slice_len(len, slices, k),
{
    let q = len / slices;
    let m = len % slices;
    assert(len == q * slices + m && 0 <= m < slices && 0 <= q) by (nonlinear_arith)
        requires
            0 <= len,
            0 < slices,
            q == len / slices,
            m == len % slices,
    ;
    assert((k + 1) * q == k * q + q) by (nonlinear_arith);
    assert(0 * q == 0) by (nonlinear_arith);
    assert((k + 1) * q <= slices * q) by (nonlinear_arith)
        requires
            0 <= k + 1 <= slices,
            0 <= q,
    ;
    assert(slices * q == q * slices) by (nonlinear_arith);
    if q == 0 {
        assert(q * slices == 0) by (nonlinear_arith)
            requires
                q == 0,
        ;
    } else {
        assert(q * slices >= slices) by (nonlinear_arith)
            requires
                q >= 1,
                slices > 0,
        ;
    }
}

/// Splits a range into `slices` possibly even ranges: the range from
/// `start` to `end` is dealt into `slices` consecutive slices whose lengths
/// differ by one at most, the longer ones first.  The slices that are not
/// empty are returned in their order, each as its start and its end.
pub fn split_range_nicely(start: usize, end: usize, slices: usize) -> (r: Vec<(usize, usize)>)
    requires
        start <= end,
        slices > 0,
    ensures
        r@.len() == slice_count(end - start, slices as int),
        forall|k: int|
            0 <= k < r@.len() ==> (#[trigger] r@[k]).0 == start + slice_offset(
                end - start,
                slices as int,
                k,
            ) && r@[k].1 == r@[k].0 + slice_len(end - start, slices as int, k),
        forall|k: int| 0 <= k < r@.len() ==> (#[trigger] r@[k]).0 < r@[k].1,
        forall|k: int| 0 <= k < r@.len() - 1 ==> (#[trigger] r@[k]).1 == r@[k + 1].0,
        r@.len() > 0 ==> r@[0].0 == start && r@[r@.len() - 1].1 == end,
{
    let len = end - start;
    let split_sz = len / slices;
    let mut left = len % slices;
    let mut current_idx: usize = start;
    let mut out: Vec<(usize, usize)> = Vec::new();
    let mut k: usize = 0;
    while k < slices
        invariant
            k <= slices,
            start <= end,
            len == end - start,
            split_sz == len / slices,
            slices > 0,
            left == if k < len % slices {
                len % slices - k
            } else {
                0
            },
            current_idx == start + slice_offset(len as int, slices as int, k as int),
            current_idx <= end,
            out@.len() == if k < slice_count(len as int, slices as int) {
                k as int
            } else {
                slice_count(len as int, slices as int)
            },
            forall|i: int|
                0 <= i < out@.len() ==> (#[trigger] out@[i]).0 == start + slice_offset(
                    len as int,
                    slices as int,
                    i,
                ) && out@[i].1 == out@[i].0 + slice_len(len as int, slices as int, i),
        decreases slices - k,
    {
        proof {
            lemma_slices_partition(len as int, slices as int, k as int);
        }
        let my_len = if left > 0 {
            left -= 1;
            split_sz + 1
        } else {
            split_sz
        };
        assert(my_len == slice_len(len as int, slices as int, k as int));
        if my_len != 0 {
            out.push((current_idx, current_idx + my_len));
        }
        current_idx += my_len;
        k += 1;
    }
    proof {
        assert forall|i: int| 0 <= i < out@.len() implies (#[trigger] out@[i]).0 < out@[i].1 by {
            lemma_slices_partition(len as int, slices as int, i);
        }
        assert forall|i: int| 0 <= i < out@.len() - 1 implies (#[trigger] out@[i]).1 == out@[i
            + 1].0 by {
            lemma_slices_partition(len as int, slices as int, i);
        }
        if out@.len() > 0 {
            lemma_slices_partition(len as int, slices as int, 0);
            let last = out@.len() - 1;
            lemma_slices_partition(len as int, slices as int, last);
            if len < slices {
                assert(len / slices == 0) by (nonlinear_arith)
                    requires
                        0 <= len < slices,
                ;
                assert(len % slices == len) by (nonlinear_arith)
                    requires
                        0 <= len < slices,
                ;
                assert(last * (len / slices) == 0) by (nonlinear_arith)
                    requires
                        len / slices == 0,
                ;
            } else {
                lemma_slices_partition(len as int, slices as int, slices - 1);
            }
        }
    }
    out
}

} // verus!

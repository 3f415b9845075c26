use vstd::prelude::*;
use vstd::arithmetic::div_mod::lemma_fundamental_div_mod;
use vstd::arithmetic::div_mod::lemma_fundamental_div_mod_converse_div;
use vstd::seq_lib::lemma_multiset_commutative;

verus! {

broadcast use vstd::seq_lib::group_to_multiset_ensures;

/// `s` is in non-decreasing order.
pub open spec fn sorted(s: Seq<i32>) -> bool {
    forall|i: int, j: int| 0 <= i <= j < s.len() ==> s[i] <= s[j]
}

/// Each aligned block of `w` consecutive positions of `s` is in non-decreasing order.
pub open spec fn runs_sorted(s: Seq<i32>, w: int) -> bool {
    forall|i: int, j: int| 0 <= i <= j < s.len() && i / w == j / w ==> s[i] <= s[j]
}

/// Positions inside `[q * w, q * w + w)` all belong to block `q`.
proof fn lemma_in_block(i: int, q: int, w: int)
    requires
        w > 0,
        q * w <= i < q * w + w,
    ensures
        i / w == q,
{
    lemma_fundamental_div_mod_converse_div(i, w, q, i - q * w);
}

/// A position before `k * w` lies in an earlier block than any position from `k * w` on.
proof fn lemma_blocks_ordered(i: int, j: int, k: int, w: int)
    requires
        w > 0,
        0 <= i < k * w <= j,
    ensures
        i / w < j / w,
{
    lemma_fundamental_div_mod(i, w);
    lemma_fundamental_div_mod(j, w);
    let qi = i / w;
    let qj = j / w;
    assert(qi < k) by (nonlinear_arith)
        requires
            i == w * qi + i % w,
            0 <= i % w,
            i < k * w,
            w > 0,
    ;
    assert(qj >= k) by (nonlinear_arith)
        requires
            j == w * qj + j % w,
            j % w < w,
            k * w <= j,
            w > 0,
    ;
}

/// Splitting a range splits its multiset.
proof fn lemma_split_multiset(s: Seq<i32>, a: int, b: int, c: int)
    requires
        0 <= a <= b <= c <= s.len(),
    ensures
        s.subrange(a, c).to_multiset() == s.subrange(a, b).to_multiset().add(
            s.subrange(b, c).to_multiset(),
        ),
{
    assert(s.subrange(a, b) + s.subrange(b, c) =~= s.subrange(a, c));
    lemma_multiset_commutative(s.subrange(a, b), s.subrange(b, c));
}

/// Once a block covers the whole sequence, sorted blocks mean a sorted sequence.
proof fn lemma_one_block(s: Seq<i32>, w: int)
    requires
        w >= s.len(),
        w > 0,
        runs_sorted(s, w),
    ensures
        sorted(s),
{
    assert forall|i: int, j: int| 0 <= i <= j < s.len() implies s[i] <= s[j] by {
        lemma_in_block(i, 0, w);
        lemma_in_block(j, 0, w);
    }
}

/// Merges the sorted ranges `src[lo..mid]` and `src[mid..hi]` into `dst[lo..hi]`,
/// taking from the left range first on equal values.
fn merge_runs(src: &Vec<i32>, dst: &mut Vec<i32>, lo: usize, mid: usize, hi: usize)
    requires
        old(dst).len() == src.len(),
        lo <= mid <= hi <= src.len(),
        sorted(src@.subrange(lo as int, mid as int)),
        sorted(src@.subrange(mid as int, hi as int)),
    ensures
        final(dst).len() == old(dst).len(),
        forall|k: int|
            0 <= k < final(dst).len() && !(lo <= k < hi) ==> final(dst)@[k] == old(dst)@[k],
        sorted(final(dst)@.subrange(lo as int, hi as int)),
        final(dst)@.subrange(lo as int, hi as int).to_multiset() == src@.subrange(
            lo as int,
            hi as int,
        ).to_multiset(),
{
    let ghost d0 = dst@;
    let mut i: usize = lo;
    let mut j: usize = mid;
    while i < mid || j < hi
        invariant
            lo <= i <= mid <= j <= hi <= src.len(),
            dst.len() == src.len(),
            sorted(src@.subrange(lo as int, mid as int)),
            sorted(src@.subrange(mid as int, hi as int)),
            forall|k: int|
                0 <= k < dst.len() && !(lo <= k < i + j - mid) ==> dst@[k] == d0[k],
            sorted(dst@.subrange(lo as int, i + j - mid)),
            dst@.subrange(lo as int, i + j - mid).to_multiset() == src@.subrange(
                lo as int,
                i as int,
            ).to_multiset().add(src@.subrange(mid as int, j as int).to_multiset()),
            forall|p: int|
                lo <= p < i + j - mid ==> (i < mid ==> dst@[p] <= src@[i as int]) && (j < hi
                    ==> dst@[p] <= src@[j as int]),
        decreases (mid - i) + (hi - j),
    {
        let k: usize = i + (j - mid);
        let ghost before = dst@;
        if i < mid && (j >= hi || src[i] <= src[j]) {
            let v = src[i];
            dst.set(k, v);
            proof {
                assert(src@.subrange(lo as int, i + 1) =~= src@.subrange(lo as int, i as int).push(
                    v,
                ));
                assert(dst@.subrange(lo as int, k + 1) =~= before.subrange(lo as int, k as int).push(
                    v,
                ));
                if i + 1 < mid {
                    assert(src@.subrange(lo as int, mid as int)[i - lo] <= src@.subrange(
                        lo as int,
                        mid as int,
                    )[i + 1 - lo]);
                }
            }
            i = i + 1;
        } else {
            let v = src[j];
            dst.set(k, v);
            proof {
                assert(src@.subrange(mid as int, j + 1) =~= src@.subrange(mid as int, j as int).push(
                    v,
                ));
                assert(dst@.subrange(lo as int, k + 1) =~= before.subrange(lo as int, k as int).push(
                    v,
                ));
                if j + 1 < hi {
                    assert(src@.subrange(mid as int, hi as int)[j - mid] <= src@.subrange(
                        mid as int,
                        hi as int,
                    )[j + 1 - mid]);
                }
            }
            j = j + 1;
        }
        proof {
            let ds = dst@.subrange(lo as int, i + j - mid);
            assert forall|a: int, b: int| 0 <= a <= b < ds.len() implies ds[a] <= ds[b] by {
                if b < ds.len() - 1 {
                    assert(before.subrange(lo as int, k as int)[a] <= before.subrange(
                        lo as int,
                        k as int,
                    )[b]);
                }
            }
        }
    }
    proof {
        lemma_split_multiset(src@, lo as int, mid as int, hi as int);
    }
}

/// One pass of the sort: merges each pair of neighbouring `width`-blocks of `src`
/// into one `2 * width`-block of `dst`.
fn merge_pass(src: &Vec<i32>, dst: &mut Vec<i32>, width: usize)
    requires
        width > 0,
        old(dst).len() == src.len(),
        runs_sorted(src@, width as int),
    ensures
        final(dst).len() == src.len(),
        runs_sorted(final(dst)@, 2 * width),
        final(dst)@.to_multiset() == src@.to_multiset(),
{
    let n = src.len();
    let ghost w = width as int;
    let ghost w2 = 2 * w;
    let mut pos: usize = 0;
    let ghost mut blk: int = 0;
    while pos < n
        invariant
            n == src.len(),
            dst.len() == n,
            w == width,
            w > 0,
            w2 == 2 * w,
            runs_sorted(src@, w),
            pos <= n,
            blk >= 0,
            pos == n || pos == blk * w2,
            forall|i: int, j: int|
                0 <= i <= j < pos && i / w2 == j / w2 ==> dst@[i] <= dst@[j],
            dst@.subrange(0, pos as int).to_multiset() == src@.subrange(
                0,
                pos as int,
            ).to_multiset(),
        decreases n - pos,
    {
        let lo = pos;
        let mid = if n - pos <= width {
            n
        } else {
            pos + width
        };
        let hi = if n - mid <= width {
            n
        } else {
            mid + width
        };
        proof {
            assert(blk * w2 == (2 * blk) * w + 0) by (nonlinear_arith)
                requires
                    w2 == 2 * w,
            ;
            assert((2 * blk + 1) * w == (2 * blk) * w + w) by (nonlinear_arith);
            assert forall|a: int, b: int|
                0 <= a <= b < mid - lo implies src@.subrange(lo as int, mid as int)[a]
                <= src@.subrange(lo as int, mid as int)[b] by {
                lemma_in_block(lo + a, 2 * blk, w);
                lemma_in_block(lo + b, 2 * blk, w);
            }
            assert forall|a: int, b: int|
                0 <= a <= b < hi - mid implies src@.subrange(mid as int, hi as int)[a]
                <= src@.subrange(mid as int, hi as int)[b] by {
                lemma_in_block(mid + a, 2 * blk + 1, w);
                lemma_in_block(mid + b, 2 * blk + 1, w);
            }
        }
        let ghost before = dst@;
        merge_runs(src, dst, lo, mid, hi);
        proof {
            let ms = dst@.subrange(lo as int, hi as int);
            assert(dst@.subrange(0, lo as int) =~= before.subrange(0, lo as int));
            lemma_split_multiset(dst@, 0, lo as int, hi as int);
            lemma_split_multiset(src@, 0, lo as int, hi as int);
            assert forall|i: int, j: int|
                0 <= i <= j < hi && i / w2 == j / w2 implies dst@[i] <= dst@[j] by {
                if j < lo {
                    assert(before[i] <= before[j]);
                } else if i >= lo {
                    assert(ms[i - lo] <= ms[j - lo]);
                } else {
                    lemma_blocks_ordered(i, j, blk, w2);
                }
            }
            if hi < n {
                assert(hi == (blk + 1) * w2) by (nonlinear_arith)
                    requires
                        hi == lo + 2 * w,
                        lo == blk * w2,
                        w2 == 2 * w,
                ;
            }
            blk = blk + 1;
        }
        pos = hi;
    }
    proof {
        assert(dst@.subrange(0, n as int) =~= dst@);
        assert(src@.subrange(0, n as int) =~= src@);
    }
}

/// Sorts `arr` into non-decreasing order by bottom-up merging, doubling the
/// block width on each pass and alternating between two buffers.
pub fn merge(arr: Vec<i32>) -> (r: Vec<i32>)
    ensures
        sorted(r@),
        r@.to_multiset() == arr@.to_multiset(),
{
    let n = arr.len();
    let mut reading = arr;
    let mut writing: Vec<i32> = vec![0; n];
    let mut width: usize = 1;
    proof {
        assert forall|i: int, j: int|
            0 <= i <= j < reading.len() && i / 1 == j / 1 implies reading@[i] <= reading@[j] by {
            lemma_in_block(i, i, 1);
            lemma_in_block(j, j, 1);
        }
    }
    while width < n
        invariant
            reading.len() == n,
            writing.len() == n,
            width >= 1,
            runs_sorted(reading@, width as int),
            reading@.to_multiset() == arr@.to_multiset(),
        decreases n - width,
    {
        merge_pass(&reading, &mut writing, width);
        std::mem::swap(&mut reading, &mut writing);
        if width >= n - width {
            proof {
                lemma_one_block(reading@, 2 * width);
            }
            width = n;
        } else {
            width = 2 * width;
        }
    }
    proof {
        if n > 0 {
            lemma_one_block(reading@, width as int);
        }
    }
    reading
}

} // verus!

//! The most frequent values of an integer list.
use vstd::prelude::*;

verus! {

/// How many times `x` occurs in `s`.
pub open spec fn occurrences(s: Seq<i64>, x: i64) -> nat
    decreases s.len(),
{
    if s.len() == 0 {
        0
    } else {
        occurrences(s.drop_last(), x) + if s.last() == x {
            1nat
        } else {
            0nat
        }
    }
}

/// Counts each distinct value of `nums`: `vals` holds the values, each once,
/// and `counts` how often each occurs.
fn count_values(nums: &Vec<i64>) -> (r: (Vec<i64>, Vec<usize>))
    ensures
        r.0@.len() == r.1@.len(),
        r.0@.no_duplicates(),
        forall|j: int| 0 <= j < r.1@.len() ==> r.1@[j] == occurrences(nums@, r.0@[j]),
        forall|x: i64| occurrences(nums@, x) > 0 <==> r.0@.contains(x),
{
    let mut vals: Vec<i64> = Vec::new();
    let mut counts: Vec<usize> = Vec::new();
    let mut i: usize = 0;
    while i < nums.len()
        invariant
            i <= nums@.len(),
            vals@.len() == counts@.len(),
            vals@.no_duplicates(),
            forall|j: int|
                0 <= j < counts@.len() ==> counts@[j] == occurrences(
                    nums@.take(i as int),
                    vals@[j],
                ),
            forall|j: int| 0 <= j < counts@.len() ==> counts@[j] <= i,
            forall|x: i64| occurrences(nums@.take(i as int), x) > 0 <==> vals@.contains(x),
        decreases nums@.len() - i,
    {
        let v = nums[i];
        let ghost pre = nums@.take(i as int);
        let ghost post = nums@.take(i + 1);
        let ghost old_vals = vals@;
        proof {
            assert(post.drop_last() =~= pre);
            assert(post.last() == v);
            assert forall|x: i64|
                #[trigger] occurrences(post, x) == occurrences(pre, x) + if x == v {
                    1nat
                } else {
                    0nat
                } by {}
        }
        let mut j: usize = 0;
        while j < vals.len() && vals[j] != v
            invariant
                j <= vals@.len(),
                forall|t: int| 0 <= t < j ==> vals@[t] != v,
            decreases vals@.len() - j,
        {
            j += 1;
        }
        if j < vals.len() {
            let c = counts[j];
            counts.set(j, c + 1);
            proof {
                assert(vals@[j as int] == v);
                assert forall|x: i64| occurrences(post, x) > 0 <==> vals@.contains(x) by {
                    if x == v {
                        assert(vals@[j as int] == x);
                    }
                }
            }
        } else {
            vals.push(v);
            counts.push(1);
            proof {
                assert(!old_vals.contains(v));
                assert forall|x: i64| occurrences(post, x) > 0 <==> vals@.contains(x) by {
                    if old_vals.contains(x) {
                        let t = old_vals.index_of(x);
                        assert(vals@[t] == x);
                    }
                    if vals@.contains(x) {
                        let t = vals@.index_of(x);
                        if t < old_vals.len() {
                            assert(old_vals[t] == x);
                        }
                    }
                    if x == v {
                        assert(vals@[old_vals.len() as int] == x);
                    }
                }
            }
        }
        i += 1;
    }
    proof {
        assert(nums@.take(i as int) =~= nums@);
    }
    (vals, counts)
}

/// The `k` values that occur most often in `nums`, most frequent first; all
/// distinct values when there are fewer than `k`. Among values with equal
/// counts, which ones are kept is left open.
pub fn top_k_frequent(nums: Vec<i64>, k: usize) -> (r: Vec<i64>)
    ensures
        r@.len() <= k,
        r@.no_duplicates(),
        forall|y: i64| r@.contains(y) ==> occurrences(nums@, y) > 0,
        r@.len() < k ==> forall|x: i64| occurrences(nums@, x) > 0 ==> r@.contains(x),
        forall|y: i64, z: i64|
            r@.contains(y) && !r@.contains(z) ==> occurrences(nums@, y) >= occurrences(nums@, z),
        forall|a: int, b: int|
            0 <= a < b < r@.len() ==> occurrences(nums@, r@[a]) >= occurrences(nums@, r@[b]),
{
    let mut out: Vec<i64> = Vec::new();
    if k == 0 || nums.len() == 0 {
        return out;
    }
    let (mut vals, mut counts) = count_values(&nums);
    while out.len() < k && vals.len() > 0
        invariant
            out@.len() <= k,
            vals@.len() == counts@.len(),
            vals@.no_duplicates(),
            out@.no_duplicates(),
            forall|y: i64| out@.contains(y) ==> !vals@.contains(y),
            forall|j: int| 0 <= j < counts@.len() ==> counts@[j] == occurrences(nums@, vals@[j]),
            forall|x: i64| occurrences(nums@, x) > 0 <==> (vals@.contains(x) || out@.contains(x)),
            forall|t: int, j: int|
                0 <= t < out@.len() && 0 <= j < vals@.len() ==> occurrences(nums@, out@[t])
                    >= occurrences(nums@, vals@[j]),
            forall|a: int, b: int|
                0 <= a < b < out@.len() ==> occurrences(nums@, out@[a]) >= occurrences(
                    nums@,
                    out@[b],
                ),
        decreases vals@.len(),
    {
        let mut best: usize = 0;
        let mut j: usize = 1;
        while j < vals.len()
            invariant
                best < j <= vals@.len(),
                vals@.len() == counts@.len(),
                forall|t: int| 0 <= t < j ==> counts@[t] <= counts@[best as int],
            decreases vals@.len() - j,
        {
            if counts[j] > counts[best] {
                best = j;
            }
            j += 1;
        }
        let ghost old_vals = vals@;
        let ghost old_out = out@;
        let v = vals.remove(best);
        counts.remove(best);
        out.push(v);
        proof {
            assert forall|y: i64| vals@.contains(y) <==> (old_vals.contains(y) && y != v) by {
                if vals@.contains(y) {
                    let t = vals@.index_of(y);
                    if t < best {
                        assert(old_vals[t] == y);
                    } else {
                        assert(old_vals[t + 1] == y);
                    }
                }
                if old_vals.contains(y) && y != v {
                    let t = old_vals.index_of(y);
                    if t < best {
                        assert(vals@[t] == y);
                    } else {
                        assert(vals@[t - 1] == y);
                    }
                }
            }
            assert forall|y: i64| out@.contains(y) <==> (old_out.contains(y) || y == v) by {
                if out@.contains(y) {
                    let t = out@.index_of(y);
                    if t < old_out.len() {
                        assert(old_out[t] == y);
                    }
                }
                if old_out.contains(y) {
                    assert(out@[old_out.index_of(y)] == y);
                }
                if y == v {
                    assert(out@[old_out.len() as int] == y);
                }
            }
            assert(old_vals[best as int] == v);
            assert(old_vals.contains(v));
            assert forall|y: i64| out@.contains(y) implies !vals@.contains(y) by {
                if old_out.contains(y) {
                    assert(!old_vals.contains(y));
                }
            }
            assert forall|x: i64| occurrences(nums@, x) > 0 <==> (vals@.contains(x) || out@.contains(
                x,
            )) by {
                if old_vals.contains(x) || old_out.contains(x) {
                    assert(vals@.contains(x) || out@.contains(x));
                }
            }
            assert forall|a: int, b: int| 0 <= a < b < vals@.len() implies vals@[a] != vals@[b] by {
                let a1 = if a < best { a } else { a + 1 };
                let b1 = if b < best { b } else { b + 1 };
                assert(vals@[a] == old_vals[a1]);
                assert(vals@[b] == old_vals[b1]);
            }
            assert forall|a: int, b: int| 0 <= a < b < out@.len() implies out@[a] != out@[b] by {
                if b == old_out.len() {
                    assert(old_out.contains(out@[a]));
                }
            }
            assert forall|t: int, j: int|
                0 <= t < out@.len() && 0 <= j < vals@.len() implies occurrences(nums@, out@[t])
                >= occurrences(nums@, vals@[j]) by {
                let j1 = if j < best { j } else { j + 1 };
                assert(vals@[j] == old_vals[j1]);
                assert(counts@[j] == occurrences(nums@, vals@[j]));
            }
            assert forall|j: int| 0 <= j < counts@.len() implies counts@[j] == occurrences(
                nums@,
                vals@[j],
            ) by {
                let j1 = if j < best { j } else { j + 1 };
                assert(vals@[j] == old_vals[j1]);
            }
        }
    }
    proof {
        assert forall|y: i64, z: i64|
            out@.contains(y) && !out@.contains(z) implies occurrences(nums@, y) >= occurrences(
            nums@,
            z,
        ) by {
            if occurrences(nums@, z) > 0 {
                let t = out@.index_of(y);
                let j = vals@.index_of(z);
                assert(out@[t] == y);
            }
        }
    }
    out
}

} // verus!

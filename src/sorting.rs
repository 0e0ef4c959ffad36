use vstd::prelude::*;

verus! {

/// Lexicographic order on (key, index) pairs.
pub open spec fn pair_lt(a: (u32, usize), b: (u32, usize)) -> bool {
    a.0 < b.0 || (a.0 == b.0 && a.1 < b.1)
}

/// Each entry is strictly below every later one.
pub open spec fn strictly_sorted(s: Seq<(u32, usize)>) -> bool {
    forall|i: int, j: int| 0 <= i < j < s.len() ==> pair_lt(#[trigger] s[i], #[trigger] s[j])
}

/// Merges two strictly sorted vectors into one holding each of their entries once.
fn merge(a: Vec<(u32, usize)>, b: Vec<(u32, usize)>) -> (r: Vec<(u32, usize)>)
    requires
        strictly_sorted(a@),
        strictly_sorted(b@),
    ensures
        strictly_sorted(r@),
        forall|x: (u32, usize)| r@.contains(x) <==> (a@.contains(x) || b@.contains(x)),
{
    let mut r: Vec<(u32, usize)> = Vec::new();
    let mut i: usize = 0;
    let mut j: usize = 0;
    while i < a.len() || j < b.len()
        invariant
            strictly_sorted(a@),
            strictly_sorted(b@),
            strictly_sorted(r@),
            i <= a.len(),
            j <= b.len(),
            forall|x: (u32, usize)|
                r@.contains(x) <==> (exists|p: int| 0 <= p < i && a@[p] == x) || (exists|q: int|
                    0 <= q < j && b@[q] == x),
            forall|k: int, p: int|
                0 <= k < r.len() && i <= p < a.len() ==> pair_lt(#[trigger] r@[k], #[trigger] a@[p]),
            forall|k: int, q: int|
                0 <= k < r.len() && j <= q < b.len() ==> pair_lt(#[trigger] r@[k], #[trigger] b@[q]),
        decreases a.len() + b.len() - i - j,
    {
        let ghost old_r = r@;
        let ghost oi = i;
        let ghost oj = j;
        let take_a = j >= b.len() || (i < a.len() && (a[i].0 < b[j].0 || (a[i].0 == b[j].0
            && a[i].1 <= b[j].1)));
        if take_a {
            let x = a[i];
            r.push(x);
            if j < b.len() && b[j].0 == x.0 && b[j].1 == x.1 {
                j += 1;
            }
            i += 1;
        } else {
            let x = b[j];
            r.push(x);
            j += 1;
        }
        proof {
            assert forall|x: (u32, usize)|
                r@.contains(x) <==> (exists|p: int| 0 <= p < i && a@[p] == x) || (exists|q: int|
                    0 <= q < j && b@[q] == x) by {
                if r@.contains(x) {
                    let k = choose|k: int| 0 <= k < r@.len() && r@[k] == x;
                    if k < old_r.len() {
                        assert(old_r.contains(x));
                    }
                }
                if exists|p: int| 0 <= p < i && a@[p] == x {
                    let p = choose|p: int| 0 <= p < i && a@[p] == x;
                    if p < oi {
                        assert(old_r.contains(x));
                    }
                    if p == oi {
                        assert(r@[old_r.len() as int] == x);
                    }
                }
                if exists|q: int| 0 <= q < j && b@[q] == x {
                    let q = choose|q: int| 0 <= q < j && b@[q] == x;
                    if q < oj {
                        assert(old_r.contains(x));
                    } else {
                        assert(r@[old_r.len() as int] == x);
                    }
                }
                if exists|p: int| 0 <= p < oi && a@[p] == x {
                    assert(old_r.contains(x));
                    let k = choose|k: int| 0 <= k < old_r.len() && old_r[k] == x;
                    assert(r@[k] == x);
                }
                if exists|q: int| 0 <= q < oj && b@[q] == x {
                    assert(old_r.contains(x));
                    let k = choose|k: int| 0 <= k < old_r.len() && old_r[k] == x;
                    assert(r@[k] == x);
                }
            }
        }
    }
    proof {
        assert forall|x: (u32, usize)| r@.contains(x) <==> (a@.contains(x) || b@.contains(x)) by {
            if a@.contains(x) {
                let p = choose|p: int| 0 <= p < a@.len() && a@[p] == x;
            }
            if b@.contains(x) {
                let q = choose|q: int| 0 <= q < b@.len() && b@[q] == x;
            }
        }
    }
    r
}

/// Sorts `v[lo..hi]` into a strictly increasing vector holding each of its entries once.
fn sort_range(v: &Vec<(u32, usize)>, lo: usize, hi: usize) -> (r: Vec<(u32, usize)>)
    requires
        lo <= hi <= v.len(),
    ensures
        strictly_sorted(r@),
        forall|x: (u32, usize)|
            r@.contains(x) <==> (exists|p: int| lo <= p < hi && v@[p] == x),
    decreases hi - lo,
{
    if hi - lo == 0 {
        let r: Vec<(u32, usize)> = Vec::new();
        r
    } else if hi - lo == 1 {
        let r = vec![v[lo]];
        proof {
            assert forall|x: (u32, usize)|
                r@.contains(x) <==> (exists|p: int| lo <= p < hi && v@[p] == x) by {
                if r@.contains(x) {
                    assert(r@[0] == x);
                }
                if exists|p: int| lo <= p < hi && v@[p] == x {
                    assert(r@[0] == x);
                }
            }
        }
        r
    } else {
        let mid = lo + (hi - lo) / 2;
        let left = sort_range(v, lo, mid);
        let right = sort_range(v, mid, hi);
        let r = merge(left, right);
        proof {
            assert forall|x: (u32, usize)|
                r@.contains(x) <==> (exists|p: int| lo <= p < hi && v@[p] == x) by {
                if exists|p: int| lo <= p < hi && v@[p] == x {
                    let p = choose|p: int| lo <= p < hi && v@[p] == x;
                    if p < mid {
                        assert(exists|p: int| lo <= p < mid && v@[p] == x);
                    } else {
                        assert(exists|p: int| mid <= p < hi && v@[p] == x);
                    }
                }
            }
        }
        r
    }
}

/// The entries of `v` in strictly increasing order, each once.
pub fn sorted_unique(v: &Vec<(u32, usize)>) -> (r: Vec<(u32, usize)>)
    ensures
        strictly_sorted(r@),
        forall|x: (u32, usize)| r@.contains(x) <==> v@.contains(x),
{
    let r = sort_range(v, 0, v.len());
    proof {
        assert forall|x: (u32, usize)| r@.contains(x) <==> v@.contains(x) by {
            if v@.contains(x) {
                let p = choose|p: int| 0 <= p < v@.len() && v@[p] == x;
            }
        }
    }
    r
}

} // verus!

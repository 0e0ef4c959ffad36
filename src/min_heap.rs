use vstd::prelude::*;

verus! {

/// Every entry's time is at least its parent's, the parent of position `i` being `(i - 1) / 2`.
pub open spec fn is_min_heap(s: Seq<(u32, usize)>) -> bool {
    forall|i: int, p: int|
        0 < i < s.len() && p == (i - 1) / 2 ==> (#[trigger] s[p]).0 <= (#[trigger] s[i]).0
}

proof fn lemma_root_is_min(s: Seq<(u32, usize)>, i: int)
    requires
        is_min_heap(s),
        0 <= i < s.len(),
    ensures
        s[0].0 <= s[i].0,
    decreases i,
{
    if i > 0 {
        let p = (i - 1) / 2;
        lemma_root_is_min(s, p);
        assert(s[p].0 <= s[i].0);
    }
}

/// Exchanges the entries at `i` and `j`.
fn swap_entries(h: &mut Vec<(u32, usize)>, i: usize, j: usize)
    requires
        i < old(h).len(),
        j < old(h).len(),
    ensures
        final(h)@ == old(h)@.update(i as int, old(h)@[j as int]).update(j as int, old(h)@[i as int]),
        forall|x: (u32, usize)| #[trigger] final(h)@.contains(x) <==> old(h)@.contains(x),
{
    let a = h[i];
    let b = h[j];
    let ghost before = h@;
    h[i] = b;
    h[j] = a;
    proof {
        assert forall|x: (u32, usize)| #[trigger] h@.contains(x) <==> before.contains(x) by {
            if h@.contains(x) {
                let k = choose|k: int| 0 <= k < h@.len() && h@[k] == x;
                if k == i {
                    assert(before[j as int] == x);
                } else if k == j {
                    assert(before[i as int] == x);
                } else {
                    assert(before[k] == x);
                }
            }
            if before.contains(x) {
                let k = choose|k: int| 0 <= k < before.len() && before[k] == x;
                if k == i {
                    assert(h@[j as int] == x);
                } else if k == j {
                    assert(h@[i as int] == x);
                } else {
                    assert(h@[k] == x);
                }
            }
        }
    }
}

/// Adds `x` to the heap.
pub fn heap_push(h: &mut Vec<(u32, usize)>, x: (u32, usize))
    requires
        is_min_heap(old(h)@),
    ensures
        is_min_heap(final(h)@),
        final(h).len() == old(h).len() + 1,
        forall|y: (u32, usize)| #[trigger] final(h)@.contains(y) <==> (old(h)@.contains(y) || y == x),
{
    let ghost before = h@;
    h.push(x);
    proof {
        assert forall|y: (u32, usize)| #[trigger] h@.contains(y) <==> (before.contains(y) || y == x) by {
            if h@.contains(y) {
                let k = choose|k: int| 0 <= k < h@.len() && h@[k] == y;
                if k < before.len() {
                    assert(before[k] == y);
                }
            }
            if before.contains(y) {
                let k = choose|k: int| 0 <= k < before.len() && before[k] == y;
                assert(h@[k] == y);
            }
            if y == x {
                assert(h@[before.len() as int] == y);
            }
        }
    }
    let ghost pushed = h@;
    let mut k: usize = h.len() - 1;
    while k > 0 && h[(k - 1) / 2].0 > h[k].0
        invariant
            k < h.len(),
            h.len() == before.len() + 1,
            forall|i: int| 0 < i < h.len() && i != k ==> h@[(i - 1) / 2].0 <= (#[trigger] h@[i]).0,
            k > 0 ==> forall|c: int|
                0 < c < h.len() && (c - 1) / 2 == k ==> h@[(k - 1) / 2].0 <= (#[trigger] h@[c]).0,
            forall|y: (u32, usize)| #[trigger] h@.contains(y) <==> pushed.contains(y),
        decreases k,
    {
        let p = (k - 1) / 2;
        let ghost s = h@;
        swap_entries(h, k, p);
        proof {
            assert forall|i: int| 0 < i < h.len() && i != p implies h@[(i - 1) / 2].0 <= (
            #[trigger] h@[i]).0 by {
                if i == k {
                } else if (i - 1) / 2 == k {
                    assert(s[i] == h@[i]);
                } else if (i - 1) / 2 == p {
                    assert(s[i] == h@[i]);
                    assert(s[(i - 1) / 2].0 <= s[i].0);
                } else {
                    assert(s[i] == h@[i]);
                    assert(s[(i - 1) / 2] == h@[(i - 1) / 2]);
                }
            }
            if p > 0 {
                assert forall|c: int| 0 < c < h.len() && (c - 1) / 2 == p implies h@[(p - 1) / 2].0
                    <= (#[trigger] h@[c]).0 by {
                    assert(s[(p - 1) / 2] == h@[(p - 1) / 2]);
                    assert(s[(p - 1) / 2].0 <= s[p as int].0);
                    if c != k {
                        assert(s[c] == h@[c]);
                        assert(s[(c - 1) / 2].0 <= s[c].0);
                    }
                }
            }
        }
        k = p;
    }
}

/// Restores the heap order when only the entry at the root may be out of place.
fn sift_down(h: &mut Vec<(u32, usize)>)
    requires
        forall|i: int| 0 < i < old(h).len() && (i - 1) / 2 != 0 ==> old(h)@[(i - 1) / 2].0 <= (
        #[trigger] old(h)@[i]).0,
    ensures
        is_min_heap(final(h)@),
        final(h).len() == old(h).len(),
        forall|y: (u32, usize)| #[trigger] final(h)@.contains(y) <==> old(h)@.contains(y),
{
    let ghost popped = h@;
    let n = h.len();
    let mut k: usize = 0;
    while k < n
        invariant
            n == h.len(),
            k <= n,
            n > 0 ==> k < n,
            forall|i: int| 0 < i < h.len() && (i - 1) / 2 != k ==> h@[(i - 1) / 2].0 <= (
            #[trigger] h@[i]).0,
            k > 0 ==> forall|c: int|
                0 < c < h.len() && (c - 1) / 2 == k ==> h@[(k - 1) / 2].0 <= (#[trigger] h@[c]).0,
            forall|y: (u32, usize)| #[trigger] h@.contains(y) <==> popped.contains(y),
        ensures
            n == h.len(),
            is_min_heap(h@),
            forall|y: (u32, usize)| #[trigger] h@.contains(y) <==> popped.contains(y),
        decreases n - k,
    {
        if k >= n / 2 {
            proof {
                assert forall|i: int| 0 < i < h.len() implies h@[(i - 1) / 2].0 <= (#[trigger] h@[i]).0 by {
                    if (i - 1) / 2 == k {
                        assert(i >= 2 * k + 1);
                    }
                }
            }
            break;
        }
        let l = 2 * k + 1;
        let rr = l + 1;
        let mut c = k;
        if l < n && h[l].0 < h[c].0 {
            c = l;
        }
        if rr < n && h[rr].0 < h[c].0 {
            c = rr;
        }
        if c == k {
            proof {
                assert forall|i: int| 0 < i < h.len() implies h@[(i - 1) / 2].0 <= (#[trigger] h@[i]).0 by {
                    if (i - 1) / 2 == k {
                        assert(i == l || i == rr);
                    }
                }
            }
            break;
        }
        let ghost s = h@;
        swap_entries(h, k, c);
        proof {
            assert((c - 1) / 2 == k);
            assert forall|i: int| 0 < i < h.len() && (i - 1) / 2 != c implies h@[(i - 1) / 2].0 <= (
            #[trigger] h@[i]).0 by {
                if (i - 1) / 2 == k {
                    assert(i == l || i == rr);
                    if i != c {
                        assert(s[i] == h@[i]);
                    }
                } else if i == k {
                    assert(s[(i - 1) / 2] == h@[(i - 1) / 2]);
                    assert(s[(k - 1) / 2].0 <= s[c as int].0);
                } else {
                    assert(s[i] == h@[i]);
                    assert(s[(i - 1) / 2] == h@[(i - 1) / 2]);
                }
            }
            assert forall|i: int| 0 < i < h.len() && (i - 1) / 2 == c implies h@[(c - 1) / 2].0
                <= (#[trigger] h@[i]).0 by {
                assert(s[i] == h@[i]);
                assert(s[(i - 1) / 2].0 <= s[i].0);
            }
        }
        k = c;
    }
}

/// Removes and returns an entry of least time from a non-empty heap.
pub fn heap_pop(h: &mut Vec<(u32, usize)>) -> (r: (u32, usize))
    requires
        is_min_heap(old(h)@),
        old(h).len() > 0,
    ensures
        is_min_heap(final(h)@),
        old(h)@.contains(r),
        forall|j: int| 0 <= j < old(h).len() ==> r.0 <= (#[trigger] old(h)@[j]).0,
        final(h).len() == old(h).len() - 1,
        forall|x: (u32, usize)| #[trigger] final(h)@.contains(x) ==> old(h)@.contains(x),
        forall|x: (u32, usize)| old(h)@.contains(x) && x != r ==> #[trigger] final(h)@.contains(x),
{
    let ghost before = h@;
    proof {
        assert forall|j: int| 0 <= j < before.len() implies before[0].0 <= (#[trigger] before[j]).0 by {
            lemma_root_is_min(before, j);
        }
    }
    let last = h.len() - 1;
    swap_entries(h, 0, last);
    let ghost swapped = h@;
    let r = h.pop().unwrap();
    proof {
        assert(r == before[0]);
        assert(h@ =~= swapped.drop_last());
        assert forall|i: int| 0 < i < h@.len() && (i - 1) / 2 != 0 implies h@[(i - 1) / 2].0 <= (
        #[trigger] h@[i]).0 by {
            assert(h@[i] == before[i]);
            assert(h@[(i - 1) / 2] == before[(i - 1) / 2]);
        }
        assert forall|x: (u32, usize)| #[trigger] h@.contains(x) implies before.contains(x) by {
            let k = choose|k: int| 0 <= k < h@.len() && h@[k] == x;
            assert(swapped[k] == x);
            assert(swapped.contains(x));
        }
        assert forall|x: (u32, usize)| before.contains(x) && x != r implies #[trigger] h@.contains(x) by {
            assert(swapped.contains(x));
            let k = choose|k: int| 0 <= k < swapped.len() && swapped[k] == x;
            assert(k != last);
            assert(h@[k] == x);
        }
    }
    sift_down(h);
    r
}

} // verus!

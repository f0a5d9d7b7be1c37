//! Ascending lists of track ids.
use vstd::prelude::*;

verus! {

/// `x` put in its place in an ascending list, unless it is there.
pub open spec fn insert_id(s: Seq<u32>, x: u32) -> Seq<u32>
    decreases s.len(),
{
    if s.len() == 0 || s.last() < x {
        s.push(x)
    } else if s.last() == x {
        s
    } else {
        insert_id(s.drop_last(), x).push(s.last())
    }
}

/// The numbers of `s` in ascending order, each once.
pub open spec fn ascending(s: Seq<u32>) -> Seq<u32>
    decreases s.len(),
{
    if s.len() == 0 {
        s
    } else {
        insert_id(ascending(s.drop_last()), s.last())
    }
}

/// Whether each number is greater than the one before it.
pub open spec fn is_ascending(s: Seq<u32>) -> bool {
    forall|i: int, j: int| 0 <= i < j < s.len() ==> s[i] < s[j]
}

proof fn lemma_insert_id(s: Seq<u32>, x: u32)
    requires
        is_ascending(s),
    ensures
        is_ascending(insert_id(s, x)),
        forall|y: u32| #[trigger] insert_id(s, x).contains(y) <==> (s.contains(y) || y == x),
    decreases s.len(),
{
    let t = insert_id(s, x);
    if s.len() == 0 || s.last() < x {
        assert forall|y: u32| #[trigger] t.contains(y) <==> (s.contains(y) || y == x) by {
            if s.contains(y) {
                let i = choose|i: int| 0 <= i < s.len() && s[i] == y;
                assert(t[i] == y);
            }
            if y == x {
                assert(t[s.len() as int] == y);
            }
            if t.contains(y) {
                let i = choose|i: int| 0 <= i < t.len() && t[i] == y;
                if i < s.len() {
                    assert(s[i] == y);
                }
            }
        }
    } else if s.last() == x {
        assert(s[s.len() - 1] == x);
    } else {
        let d = s.drop_last();
        let u = insert_id(d, x);
        lemma_insert_id(d, x);
        assert forall|i: int| 0 <= i < u.len() implies u[i] < s.last() by {
            assert(u.contains(u[i]));
            if d.contains(u[i]) {
                let k = choose|k: int| 0 <= k < d.len() && d[k] == u[i];
                assert(s[k] == u[i]);
            }
        }
        assert forall|y: u32| #[trigger] t.contains(y) <==> (s.contains(y) || y == x) by {
            if t.contains(y) {
                let i = choose|i: int| 0 <= i < t.len() && t[i] == y;
                if i < u.len() {
                    assert(u.contains(y));
                    if d.contains(y) {
                        let k = choose|k: int| 0 <= k < d.len() && d[k] == y;
                        assert(s[k] == y);
                    }
                } else {
                    assert(s[s.len() - 1] == y);
                }
            }
            if s.contains(y) || y == x {
                if y == s.last() {
                    assert(t[u.len() as int] == y);
                } else {
                    if s.contains(y) {
                        let k = choose|k: int| 0 <= k < s.len() && s[k] == y;
                        assert(d[k] == y);
                        assert(d.contains(y));
                    }
                    assert(d.contains(y) || y == x);
                    assert(u.contains(y));
                    let i = choose|i: int| 0 <= i < u.len() && u[i] == y;
                    assert(t[i] == y);
                }
            }
        }
    }
}

/// The ascending list holds the same numbers, each once, in order.
pub proof fn ascending_is_sorted_set(s: Seq<u32>)
    ensures
        is_ascending(ascending(s)),
        forall|y: u32| #[trigger] ascending(s).contains(y) <==> s.contains(y),
    decreases s.len(),
{
    if s.len() > 0 {
        let d = s.drop_last();
        ascending_is_sorted_set(d);
        lemma_insert_id(ascending(d), s.last());
        assert forall|y: u32| #[trigger] ascending(s).contains(y) <==> s.contains(y) by {
            if s.contains(y) {
                let k = choose|k: int| 0 <= k < s.len() && s[k] == y;
                if k < d.len() {
                    assert(d[k] == y);
                }
            }
            if d.contains(y) {
                let k = choose|k: int| 0 <= k < d.len() && d[k] == y;
                assert(s[k] == y);
            }
            assert(s[s.len() - 1] == s.last());
        }
    }
}

/// Whether `ids` holds `x`.
pub fn contains_id(ids: &[u32], x: u32) -> (r: bool)
    ensures
        r == ids@.contains(x),
{
    let mut i: usize = 0;
    while i < ids.len()
        invariant
            i <= ids@.len(),
            forall|k: int| 0 <= k < i ==> ids@[k] != x,
        decreases ids@.len() - i,
    {
        if ids[i] == x {
            return true;
        }
        i = i + 1;
    }
    false
}

/// The numbers of `ids` in ascending order, each once.
pub fn sorted_ids(ids: &[u32]) -> (r: Vec<u32>)
    ensures
        r@ == ascending(ids@),
{
    let mut out: Vec<u32> = Vec::new();
    let mut n: usize = 0;
    assert(ids@.take(0) =~= Seq::<u32>::empty());
    assert(out@ =~= ascending(ids@.take(0)));
    while n < ids.len()
        invariant
            n <= ids@.len(),
            out@ == ascending(ids@.take(n as int)),
        decreases ids@.len() - n,
    {
        let x: u32 = ids[n];
        let mut i: usize = out.len();
        let ghost all = out@;
        assert(all.take(i as int) =~= all);
        assert(all.skip(i as int) =~= Seq::<u32>::empty());
        assert(insert_id(all, x) =~= insert_id(all.take(i as int), x) + all.skip(i as int));
        while i > 0 && out[i - 1] > x
            invariant
                i <= all.len(),
                all == out@,
                insert_id(all, x) == insert_id(all.take(i as int), x) + all.skip(i as int),
            decreases i,
        {
            proof {
                let t = all.take(i as int);
                assert(t.drop_last() =~= all.take(i - 1));
                assert(insert_id(t.drop_last(), x).push(t.last()) + all.skip(i as int)
                    =~= insert_id(t.drop_last(), x) + all.skip(i - 1));
            }
            i = i - 1;
        }
        if i == 0 || out[i - 1] < x {
            out.insert(i, x);
            assert(out@ =~= all.take(i as int).push(x) + all.skip(i as int));
        } else {
            assert(all =~= all.take(i as int) + all.skip(i as int));
        }
        assert(ids@.take(n + 1).drop_last() =~= ids@.take(n as int));
        n = n + 1;
    }
    assert(ids@.take(n as int) =~= ids@);
    out
}

} // verus!

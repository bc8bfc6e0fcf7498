//! Sets of process ids kept as strictly increasing vectors.
use vstd::prelude::*;

verus! {

/// `s` is strictly increasing (so sorted, without repeats).
pub open spec fn strictly_increasing(s: Seq<u32>) -> bool {
    forall|i: int, j: int| 0 <= i < j < s.len() ==> s[i] < s[j]
}

/// The elements of a finite set of pids in increasing order.
pub open spec fn ascending(s: Set<u32>) -> Seq<u32> {
    choose|q: Seq<u32>| strictly_increasing(q) && q.to_set() == s
}

/// Two strictly increasing sequences with the same elements are equal.
pub proof fn lemma_increasing_unique(a: Seq<u32>, b: Seq<u32>)
    requires
        strictly_increasing(a),
        strictly_increasing(b),
        a.to_set() == b.to_set(),
    ensures
        a == b,
    decreases a.len(),
{
    if a.len() == 0 {
        if b.len() > 0 {
            assert(b.to_set().contains(b[0]));
            assert(!a.to_set().contains(b[0]));
        }
        assert(a =~= b);
    } else {
        if b.len() == 0 {
            assert(a.to_set().contains(a[0]));
        }
        // a[0] and b[0] are both the least element of the set.
        assert(b.to_set().contains(a[0]));
        assert(a.to_set().contains(b[0]));
        let ia = choose|i: int| 0 <= i < a.len() && a[i] == b[0];
        let ib = choose|i: int| 0 <= i < b.len() && b[i] == a[0];
        if ia > 0 {
            assert(a[0] < a[ia]);
            if ib > 0 {
                assert(b[0] < b[ib]);
            }
        }
        if ib > 0 {
            assert(b[0] < b[ib]);
        }
        assert(a[0] == b[0]);
        let a1 = a.drop_first();
        let b1 = b.drop_first();
        assert(a1.to_set() =~= b1.to_set()) by {
            assert forall|x: u32| a1.to_set().contains(x) implies b1.to_set().contains(x) by {
                let i = choose|i: int| 0 <= i < a1.len() && a1[i] == x;
                assert(a[i + 1] == x);
                assert(b.to_set().contains(x));
                let j = choose|j: int| 0 <= j < b.len() && b[j] == x;
                assert(a[0] < a[i + 1]);
                if j == 0 {
                    assert(false);
                }
                assert(b1[j - 1] == x);
            }
            assert forall|x: u32| b1.to_set().contains(x) implies a1.to_set().contains(x) by {
                let i = choose|i: int| 0 <= i < b1.len() && b1[i] == x;
                assert(b[i + 1] == x);
                assert(a.to_set().contains(x));
                let j = choose|j: int| 0 <= j < a.len() && a[j] == x;
                assert(b[0] < b[i + 1]);
                if j == 0 {
                    assert(false);
                }
                assert(a1[j - 1] == x);
            }
        }
        lemma_increasing_unique(a1, b1);
        assert(a =~= seq![a[0]] + a1);
        assert(b =~= seq![b[0]] + b1);
    }
}

/// A strictly increasing sequence is the ascending listing of its elements.
pub proof fn lemma_ascending_of(q: Seq<u32>)
    requires
        strictly_increasing(q),
    ensures
        ascending(q.to_set()) == q,
{
    let s = q.to_set();
    assert(strictly_increasing(q) && q.to_set() == s);
    let c = ascending(s);
    lemma_increasing_unique(c, q);
}

/// Inserts `x` into the strictly increasing `v`, unless it is already there.
pub fn insert_unique(v: &mut Vec<u32>, x: u32)
    requires
        strictly_increasing(old(v)@),
    ensures
        strictly_increasing(final(v)@),
        final(v)@.to_set() == old(v)@.to_set().insert(x),
{
    let mut j: usize = 0;
    while j < v.len() && v[j] < x
        invariant
            j <= v@.len(),
            forall|k: int| 0 <= k < j ==> v@[k] < x,
        decreases v.len() - j,
    {
        j = j + 1;
    }
    if j < v.len() && v[j] == x {
        assert(v@.to_set() =~= v@.to_set().insert(x));
        return;
    }
    let ghost before = v@;
    v.insert(j, x);
    assert(v@ =~= before.take(j as int).push(x) + before.skip(j as int));
    assert forall|a: int, b: int| 0 <= a < b < v@.len() implies v@[a] < v@[b] by {
        if b < j {
        } else if b == j {
        } else if a < j {
            assert(v@[b] == before[b - 1]);
            assert(before[j as int] >= x);
            if b - 1 > j {
                assert(before[j as int] < before[b - 1]);
            }
        } else if a == j {
            assert(v@[b] == before[b - 1]);
            if b - 1 > j {
                assert(before[j as int] < before[b - 1]);
            }
        } else {
            assert(v@[a] == before[a - 1]);
            assert(v@[b] == before[b - 1]);
        }
    }
    assert(v@.to_set() =~= before.to_set().insert(x)) by {
        assert forall|y: u32| v@.to_set().contains(y) implies before.to_set().insert(x).contains(y) by {
            let k = choose|k: int| 0 <= k < v@.len() && v@[k] == y;
            if k < j {
                assert(before[k] == y);
            } else if k > j {
                assert(before[k - 1] == y);
            }
        }
        assert forall|y: u32| before.to_set().contains(y) implies v@.to_set().contains(y) by {
            let k = choose|k: int| 0 <= k < before.len() && before[k] == y;
            if k < j {
                assert(v@[k] == y);
            } else {
                assert(v@[k + 1] == y);
            }
        }
        assert(v@[j as int] == x);
    }
}


/// `x` placed into the increasing `q` before every larger element.
pub open spec fn insert_ascending(q: Seq<u32>, x: u32) -> Seq<u32>
    decreases q.len(),
{
    if q.len() == 0 {
        seq![x]
    } else if q.last() < x {
        q.push(x)
    } else {
        insert_ascending(q.drop_last(), x).push(q.last())
    }
}

proof fn lemma_insert_ascending(q: Seq<u32>, x: u32)
    requires
        strictly_increasing(q),
        !q.contains(x),
    ensures
        strictly_increasing(insert_ascending(q, x)),
        insert_ascending(q, x).to_set() == q.to_set().insert(x),
    decreases q.len(),
{
    if q.len() == 0 {
        assert(seq![x].to_set() =~= q.to_set().insert(x)) by {
            assert(seq![x][0] == x);
        }
    } else if q.last() < x {
        let r = q.push(x);
        assert forall|a: int, b: int| 0 <= a < b < r.len() implies r[a] < r[b] by {
            if b == q.len() {
                if a < q.len() - 1 {
                    assert(q[a] < q[q.len() - 1]);
                }
            }
        }
        assert(r.to_set() =~= q.to_set().insert(x)) by {
            assert forall|y: u32| r.contains(y) implies q.to_set().insert(x).contains(y) by {
                let k = choose|k: int| 0 <= k < r.len() && r[k] == y;
                if k < q.len() {
                    assert(q[k] == y);
                }
            }
            assert forall|y: u32| q.contains(y) implies r.contains(y) by {
                let k = choose|k: int| 0 <= k < q.len() && q[k] == y;
                assert(r[k] == y);
            }
            assert(r[q.len() as int] == x);
        }
    } else {
        let d = q.drop_last();
        let l = q.last();
        assert(strictly_increasing(d)) by {
            assert forall|a: int, b: int| 0 <= a < b < d.len() implies d[a] < d[b] by {
                assert(d[a] == q[a] && d[b] == q[b]);
            }
        }
        assert(!d.contains(x)) by {
            if d.contains(x) {
                let k = choose|k: int| 0 <= k < d.len() && d[k] == x;
                assert(q[k] == x);
            }
        }
        assert(l != x) by {
            assert(q[q.len() - 1] == l);
        }
        lemma_insert_ascending(d, x);
        let i = insert_ascending(d, x);
        let r = i.push(l);
        assert forall|y: u32| i.to_set().contains(y) implies y < l by {
            if y == x {
            } else {
                assert(d.to_set().contains(y));
                let k = choose|k: int| 0 <= k < d.len() && d[k] == y;
                assert(q[k] == y);
                assert(q[k] < q[q.len() - 1]);
            }
        }
        assert forall|a: int, b: int| 0 <= a < b < r.len() implies r[a] < r[b] by {
            if b == i.len() {
                assert(i.contains(i[a]));
                assert(i.to_set().contains(i[a]));
            } else {
                assert(r[a] == i[a] && r[b] == i[b]);
            }
        }
        assert(r.to_set() =~= q.to_set().insert(x)) by {
            assert forall|y: u32| r.contains(y) implies q.to_set().insert(x).contains(y) by {
                let k = choose|k: int| 0 <= k < r.len() && r[k] == y;
                if k < i.len() {
                    assert(i[k] == y);
                    assert(i.to_set().contains(y));
                    if y != x {
                        assert(d.to_set().contains(y));
                        let m = choose|m: int| 0 <= m < d.len() && d[m] == y;
                        assert(q[m] == y);
                    }
                } else {
                    assert(q[q.len() - 1] == y);
                }
            }
            assert forall|y: u32| q.to_set().insert(x).contains(y) implies r.contains(y) by {
                if y == l {
                    assert(r[i.len() as int] == y);
                } else if y == x {
                    assert(i.to_set().contains(y));
                    let k = choose|k: int| 0 <= k < i.len() && i[k] == y;
                    assert(r[k] == y);
                } else {
                    let k = choose|k: int| 0 <= k < q.len() && q[k] == y;
                    if k == q.len() - 1 {
                        assert(false);
                    }
                    assert(d[k] == y);
                    assert(d.to_set().contains(y));
                    assert(i.to_set().contains(y));
                    let m = choose|m: int| 0 <= m < i.len() && i[m] == y;
                    assert(r[m] == y);
                }
            }
        }
    }
}

/// Every finite set of pids has an ascending listing.
pub proof fn lemma_ascending_exists(s: Set<u32>)
    requires
        s.finite(),
    ensures
        strictly_increasing(ascending(s)),
        ascending(s).to_set() == s,
    decreases s.len(),
{
    if s.len() == 0 {
        assert(s =~= Set::<u32>::empty());
        let q = Seq::<u32>::empty();
        assert(q.to_set() =~= s);
        assert(strictly_increasing(q) && q.to_set() == s);
    } else {
        let x = s.choose();
        let r = s.remove(x);
        lemma_ascending_exists(r);
        let q = ascending(r);
        assert(!q.contains(x)) by {
            if q.contains(x) {
                assert(q.to_set().contains(x));
            }
        }
        lemma_insert_ascending(q, x);
        let w = insert_ascending(q, x);
        assert(w.to_set() =~= s);
        assert(strictly_increasing(w) && w.to_set() == s);
    }
}

} // verus!

use vstd::prelude::*;

verus! {

/// The position that follows `cur` among its siblings.
pub open spec fn advanced(cur: Seq<int>) -> Seq<int> {
    cur.update(cur.len() - 1, cur.last() + 1)
}

/// `p` is `cur` or lies below it, or comes after it in depth-first order: a place
/// that a depth-first walk standing at `cur` has not reached yet.
pub open spec fn ahead(p: Seq<int>, cur: Seq<int>) -> bool {
    ||| cur.is_prefix_of(p)
    ||| exists|k: int|
        0 <= k < cur.len() && k < p.len() && #[trigger] p.take(k) == cur.take(k) && p[k] > cur[k]
}

pub proof fn lemma_ahead_advance(p: Seq<int>, cur: Seq<int>)
    requires
        cur.len() > 0,
        ahead(p, advanced(cur)),
    ensures
        ahead(p, cur),
{
    let a = advanced(cur);
    let m = cur.len() - 1;
    assert(a.take(m) =~= cur.take(m));
    if a.is_prefix_of(p) {
        assert(p.take(m) =~= a.take(m));
        assert(p[m] == a[m]);
    } else {
        let k = choose|k: int|
            0 <= k < a.len() && k < p.len() && #[trigger] p.take(k) == a.take(k) && p[k] > a[k];
        assert(a.take(k) =~= cur.take(k));
    }
}

pub proof fn lemma_ahead_push(p: Seq<int>, cur: Seq<int>)
    requires
        ahead(p, cur.push(0)),
    ensures
        ahead(p, cur),
{
    let a = cur.push(0);
    let m = cur.len() as int;
    if a.is_prefix_of(p) {
        assert(p.take(m) =~= cur);
    } else {
        let k = choose|k: int|
            0 <= k < a.len() && k < p.len() && #[trigger] p.take(k) == a.take(k) && p[k] > a[k];
        if k < m {
            assert(a.take(k) =~= cur.take(k));
        } else {
            assert(a.take(k) =~= cur);
            assert(p.take(m) =~= cur);
        }
    }
}

pub proof fn lemma_ahead_pop_advance(p: Seq<int>, cur: Seq<int>)
    requires
        cur.len() > 1,
        ahead(p, advanced(cur.drop_last())),
    ensures
        ahead(p, cur),
{
    let d = cur.drop_last();
    lemma_ahead_advance(p, d);
    if d.is_prefix_of(p) {
        let m = d.len() - 1;
        let a = advanced(d);
        if a.is_prefix_of(p) {
            assert(p.take(m) =~= a.take(m));
            assert(a.take(m) =~= cur.take(m));
            assert(p[m] == a[m]);
        } else {
            let k = choose|k: int|
                0 <= k < a.len() && k < p.len() && #[trigger] p.take(k) == a.take(k) && p[k] > a[k];
            assert(a.take(k) =~= cur.take(k));
        }
    } else {
        let k = choose|k: int|
            0 <= k < d.len() && k < p.len() && #[trigger] p.take(k) == d.take(k) && p[k] > d[k];
        assert(d.take(k) =~= cur.take(k));
    }
}

pub proof fn lemma_not_ahead_advance(cur: Seq<int>)
    requires
        cur.len() > 0,
    ensures
        !ahead(cur, advanced(cur)),
{
    let a = advanced(cur);
    let m = cur.len() - 1;
    assert(cur[m] != a[m]);
    if a.is_prefix_of(cur) {
        assert(cur.take(a.len() as int)[m] == cur[m]);
    }
    assert forall|k: int|
        0 <= k < a.len() && k < cur.len() && #[trigger] cur.take(k) == a.take(k) implies !(cur[k] > a[k]) by {
    }
}

pub proof fn lemma_not_ahead_push(cur: Seq<int>)
    ensures
        !ahead(cur, cur.push(0)),
{
    let a = cur.push(0);
    assert forall|k: int|
        0 <= k < a.len() && k < cur.len() && #[trigger] cur.take(k) == a.take(k) implies !(cur[k] > a[k]) by {
        assert(a[k] == cur[k]);
    }
}

} // verus!

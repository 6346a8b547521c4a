//! Sorted listings of finite sets, and the orders they are sorted by.
use vstd::prelude::*;

verus! {

/// `lt` is a strict total order on the elements of `s`.
pub open spec fn orders<A>(lt: spec_fn(A, A) -> bool, s: Set<A>) -> bool {
    &&& forall|x: A| s.contains(x) ==> !#[trigger] lt(x, x)
    &&& forall|x: A, y: A|
        s.contains(x) && s.contains(y) && x != y ==> #[trigger] lt(x, y) || lt(y, x)
    &&& forall|x: A, y: A, z: A|
        s.contains(x) && s.contains(y) && s.contains(z) && #[trigger] lt(x, y) && #[trigger] lt(
            y,
            z,
        ) ==> lt(x, z)
}

/// `m` is the first element of `s`.
pub open spec fn is_first<A>(s: Set<A>, lt: spec_fn(A, A) -> bool, m: A) -> bool {
    s.contains(m) && forall|x: A| s.contains(x) && x != m ==> #[trigger] lt(m, x)
}

/// The first element of `s`.
pub open spec fn first<A>(s: Set<A>, lt: spec_fn(A, A) -> bool) -> A {
    choose|m: A| is_first(s, lt, m)
}

/// The elements of a finite set in increasing order.
pub open spec fn listing<A>(s: Set<A>, lt: spec_fn(A, A) -> bool) -> Seq<A>
    decreases s.len(),
{
    if s.finite() && s.len() > 0 && s.contains(first(s, lt)) {
        seq![first(s, lt)] + listing(s.remove(first(s, lt)), lt)
    } else {
        Seq::empty()
    }
}

/// `q` lists `s` in increasing order.
pub open spec fn lists<A>(q: Seq<A>, s: Set<A>, lt: spec_fn(A, A) -> bool) -> bool {
    &&& q.to_set() =~= s
    &&& forall|i: int, j: int| 0 <= i < j < q.len() ==> lt(#[trigger] q[i], #[trigger] q[j])
}

pub proof fn lemma_first_exists<A>(s: Set<A>, lt: spec_fn(A, A) -> bool)
    requires
        s.finite(),
        s.len() > 0,
        orders(lt, s),
    ensures
        is_first(s, lt, first(s, lt)),
    decreases s.len(),
{
    let e = s.choose();
    let rest = s.remove(e);
    if rest.len() == 0 {
        assert forall|x: A| s.contains(x) && x != e implies #[trigger] lt(e, x) by {
            assert(rest.contains(x));
        }
        assert(is_first(s, lt, e));
    } else {
        lemma_first_exists(rest, lt);
        let m = first(rest, lt);
        assert(s.contains(m) && m != e);
        if lt(e, m) {
            assert forall|x: A| s.contains(x) && x != e implies #[trigger] lt(e, x) by {
                assert(rest.contains(x));
                if x != m {
                    assert(lt(m, x));
                }
            }
            assert(is_first(s, lt, e));
        } else {
            assert(lt(m, e));
            assert forall|x: A| s.contains(x) && x != m implies #[trigger] lt(m, x) by {
                if x != e {
                    assert(rest.contains(x));
                }
            }
            assert(is_first(s, lt, m));
        }
    }
}

/// The listing of a totally ordered finite set holds each of its elements once, in order.
pub proof fn lemma_listing<A>(s: Set<A>, lt: spec_fn(A, A) -> bool)
    requires
        s.finite(),
        orders(lt, s),
    ensures
        lists(listing(s, lt), s, lt),
        listing(s, lt).no_duplicates(),
        listing(s, lt).len() == s.len(),
    decreases s.len(),
{
    let q = listing(s, lt);
    if s.len() > 0 {
        lemma_first_exists(s, lt);
        let m = first(s, lt);
        let rest = s.remove(m);
        lemma_listing(rest, lt);
        let tail = listing(rest, lt);
        assert(q == seq![m] + tail);
        assert forall|x: A| s.contains(x) implies q.to_set().contains(x) by {
            if x == m {
                assert(q[0] == m);
            } else {
                assert(tail.to_set().contains(x));
                let k = choose|k: int| 0 <= k < tail.len() && tail[k] == x;
                assert(q[k + 1] == x);
            }
        }
        assert forall|x: A| q.to_set().contains(x) implies s.contains(x) by {
            let k = choose|k: int| 0 <= k < q.len() && q[k] == x;
            if k > 0 {
                assert(tail[k - 1] == x);
                assert(tail.to_set().contains(x));
            }
        }
        assert forall|i: int, j: int| 0 <= i < j < q.len() implies lt(
            #[trigger] q[i],
            #[trigger] q[j],
        ) by {
            assert(q[j] == tail[j - 1]);
            assert(tail.to_set().contains(tail[j - 1]));
            if i == 0 {
                assert(rest.contains(q[j]));
            } else {
                assert(q[i] == tail[i - 1]);
            }
        }
        assert forall|i: int, j: int| 0 <= i < q.len() && 0 <= j < q.len() && i != j implies q[i]
            != q[j] by {
            assert(q.to_set().contains(q[i]));
            assert(q.to_set().contains(q[j]));
            if i < j {
                assert(lt(q[i], q[j]));
            } else {
                assert(lt(q[j], q[i]));
            }
        }
    } else {
        assert(s =~= Set::empty());
    }
}

/// Only the listing lists a set.
pub proof fn lemma_listing_unique<A>(q: Seq<A>, s: Set<A>, lt: spec_fn(A, A) -> bool)
    requires
        s.finite(),
        orders(lt, s),
        lists(q, s, lt),
    ensures
        q == listing(s, lt),
    decreases s.len(),
{
    if s.len() > 0 {
        lemma_first_exists(s, lt);
        let m = first(s, lt);
        assert(q.to_set().contains(m));
        let k = choose|k: int| 0 <= k < q.len() && q[k] == m;
        assert(q.to_set().contains(q[0]));
        if k > 0 {
            assert(lt(q[0], q[k]));
            assert(q[0] != m);
            assert(lt(m, q[0]));
            assert(lt(m, m));
        }
        let rest = s.remove(m);
        let tail = q.drop_first();
        assert forall|x: A| rest.contains(x) implies tail.to_set().contains(x) by {
            assert(q.to_set().contains(x));
            let j = choose|j: int| 0 <= j < q.len() && q[j] == x;
            assert(tail[j - 1] == x);
        }
        assert forall|x: A| tail.to_set().contains(x) implies rest.contains(x) by {
            let j = choose|j: int| 0 <= j < tail.len() && tail[j] == x;
            assert(q[j + 1] == x);
            assert(q.to_set().contains(x));
            assert(lt(q[0], q[j + 1]));
        }
        lemma_listing_unique(tail, rest, lt);
        assert(q =~= seq![m] + tail);
    } else {
        assert(s =~= Set::empty());
        if q.len() > 0 {
            assert(q.to_set().contains(q[0]));
        }
        assert(q =~= Seq::empty());
    }
}

/// Orders that agree on a set list it the same way.
pub proof fn lemma_listing_agree<A>(
    s: Set<A>,
    lt1: spec_fn(A, A) -> bool,
    lt2: spec_fn(A, A) -> bool,
)
    requires
        s.finite(),
        orders(lt1, s),
        forall|x: A, y: A|
            s.contains(x) && s.contains(y) ==> #[trigger] lt1(x, y) == #[trigger] lt2(x, y),
    ensures
        orders(lt2, s),
        listing(s, lt1) == listing(s, lt2),
{
    assert forall|x: A| s.contains(x) implies !#[trigger] lt2(x, x) by {
        assert(!lt1(x, x));
    }
    assert forall|x: A, y: A| s.contains(x) && s.contains(y) && x != y implies #[trigger] lt2(x, y)
        || lt2(y, x) by {
        assert(lt1(x, y) || lt1(y, x));
    }
    assert forall|x: A, y: A, z: A|
        s.contains(x) && s.contains(y) && s.contains(z) && #[trigger] lt2(x, y) && #[trigger] lt2(
            y,
            z,
        ) implies lt2(x, z) by {
        assert(lt1(x, y) && lt1(y, z));
        assert(lt1(x, z));
    }
    lemma_listing(s, lt1);
    let q = listing(s, lt1);
    assert forall|i: int, j: int| 0 <= i < j < q.len() implies lt2(
        #[trigger] q[i],
        #[trigger] q[j],
    ) by {
        assert(q.to_set().contains(q[i]) && q.to_set().contains(q[j]));
        assert(lt1(q[i], q[j]));
    }
    lemma_listing_unique(q, s, lt2);
}

/// The numbers of a finite set in increasing order.
pub open spec fn ascending(s: Set<usize>) -> Seq<usize> {
    listing(s, |a: usize, b: usize| a < b)
}

pub proof fn lemma_ascending(s: Set<usize>)
    requires
        s.finite(),
    ensures
        ascending(s).to_set() == s,
        ascending(s).no_duplicates(),
        ascending(s).len() == s.len(),
        forall|i: int, j: int|
            0 <= i < j < ascending(s).len() ==> #[trigger] ascending(s)[i] < #[trigger] ascending(
                s,
            )[j],
{
    lemma_listing(s, |a: usize, b: usize| a < b);
}

pub proof fn lemma_ascending_unique(q: Seq<usize>, s: Set<usize>)
    requires
        q.to_set() == s,
        forall|i: int, j: int| 0 <= i < j < q.len() ==> #[trigger] q[i] < #[trigger] q[j],
    ensures
        q == ascending(s),
{
    lemma_listing_unique(q, s, |a: usize, b: usize| a < b);
}

/// The indexes of a sequence of length `n`.
pub open spec fn upto(n: nat) -> Set<usize> {
    Set::new(|i: usize| i < n)
}

pub proof fn lemma_upto(n: nat)
    requires
        n <= usize::MAX,
    ensures
        upto(n).finite(),
        upto(n).len() == n,
    decreases n,
{
    if n == 0 {
        assert(upto(0) =~= Set::empty());
    } else {
        lemma_upto((n - 1) as nat);
        assert(upto(n) =~= upto((n - 1) as nat).insert((n - 1) as usize));
    }
}

} // verus!

//! Names in the order of their UTF-8 bytes.
use vstd::prelude::*;
use vstd::utf8::encode_utf8;

use crate::listing::orders;

verus! {

/// Lexicographic order of byte strings.
pub open spec fn bytes_lt(a: Seq<u8>, b: Seq<u8>) -> bool
    decreases a.len(),
{
    if b.len() == 0 {
        false
    } else if a.len() == 0 {
        true
    } else if a[0] != b[0] {
        a[0] < b[0]
    } else {
        bytes_lt(a.drop_first(), b.drop_first())
    }
}

/// Names are ordered by their UTF-8 bytes.
pub open spec fn name_lt(a: Seq<char>, b: Seq<char>) -> bool {
    bytes_lt(encode_utf8(a), encode_utf8(b))
}

/// The bytes agree up to some place, where the first text ends or has the lower byte.
pub open spec fn differs_first(a: Seq<u8>, b: Seq<u8>) -> bool {
    exists|k: int|
        0 <= k <= a.len() && k < b.len() && #[trigger] a.take(k) == b.take(k) && (k == a.len()
            || a[k] < b[k])
}

/// Names are in order as their bytes are where they first differ.
pub proof fn lemma_name_order(a: Seq<char>, b: Seq<char>)
    ensures
        name_lt(a, b) <==> differs_first(encode_utf8(a), encode_utf8(b)),
{
    lemma_bytes_order(encode_utf8(a), encode_utf8(b));
}

proof fn lemma_bytes_order(a: Seq<u8>, b: Seq<u8>)
    ensures
        bytes_lt(a, b) <==> differs_first(a, b),
    decreases a.len(),
{
    if b.len() == 0 {
    } else if a.len() == 0 || a[0] < b[0] {
        assert(a.take(0) =~= b.take(0));
    } else if a[0] != b[0] {
        if differs_first(a, b) {
            let k = choose|k: int|
                0 <= k <= a.len() && k < b.len() && #[trigger] a.take(k) == b.take(k) && (k
                    == a.len() || a[k] < b[k]);
            assert(k > 0);
            assert(a.take(k)[0] == b.take(k)[0]);
        }
    } else {
        let x = a.drop_first();
        let y = b.drop_first();
        lemma_bytes_order(x, y);
        if differs_first(x, y) {
            let k = choose|k: int|
                0 <= k <= x.len() && k < y.len() && #[trigger] x.take(k) == y.take(k) && (k
                    == x.len() || x[k] < y[k]);
            assert forall|i: int| 0 <= i < k + 1 implies a[i] == b[i] by {
                if i > 0 {
                    assert(x.take(k)[i - 1] == y.take(k)[i - 1]);
                }
            }
            assert(a.take(k + 1) =~= b.take(k + 1));
        }
        if differs_first(a, b) {
            let k = choose|k: int|
                0 <= k <= a.len() && k < b.len() && #[trigger] a.take(k) == b.take(k) && (k
                    == a.len() || a[k] < b[k]);
            assert(k > 0);
            assert forall|i: int| 0 <= i < k - 1 implies x[i] == y[i] by {
                assert(a.take(k)[i + 1] == b.take(k)[i + 1]);
            }
            assert(x.take(k - 1) =~= y.take(k - 1));
        }
    }
}

proof fn lemma_bytes_irreflexive(a: Seq<u8>)
    ensures
        !bytes_lt(a, a),
    decreases a.len(),
{
    if a.len() > 0 {
        lemma_bytes_irreflexive(a.drop_first());
    }
}

proof fn lemma_bytes_transitive(a: Seq<u8>, b: Seq<u8>, c: Seq<u8>)
    requires
        bytes_lt(a, b),
        bytes_lt(b, c),
    ensures
        bytes_lt(a, c),
    decreases a.len(),
{
    if a.len() > 0 && a[0] == b[0] && b[0] == c[0] {
        lemma_bytes_transitive(a.drop_first(), b.drop_first(), c.drop_first());
    }
}

proof fn lemma_bytes_total(a: Seq<u8>, b: Seq<u8>)
    requires
        a != b,
    ensures
        bytes_lt(a, b) || bytes_lt(b, a),
    decreases a.len(),
{
    if a.len() > 0 && b.len() > 0 && a[0] == b[0] {
        if a.drop_first() == b.drop_first() {
            assert(a =~= seq![a[0]] + a.drop_first());
            assert(b =~= seq![b[0]] + b.drop_first());
        }
        lemma_bytes_total(a.drop_first(), b.drop_first());
    } else if a.len() == 0 && b.len() == 0 {
        assert(a =~= b);
    }
}

pub proof fn lemma_name_irreflexive(a: Seq<char>)
    ensures
        !name_lt(a, a),
{
    lemma_bytes_irreflexive(encode_utf8(a));
}

pub proof fn lemma_name_transitive(a: Seq<char>, b: Seq<char>, c: Seq<char>)
    requires
        name_lt(a, b),
        name_lt(b, c),
    ensures
        name_lt(a, c),
{
    lemma_bytes_transitive(encode_utf8(a), encode_utf8(b), encode_utf8(c));
}

pub proof fn lemma_name_total(a: Seq<char>, b: Seq<char>)
    requires
        a != b,
    ensures
        name_lt(a, b) || name_lt(b, a),
{
    if encode_utf8(a) == encode_utf8(b) {
        vstd::utf8::encode_utf8_decode_utf8(a);
        vstd::utf8::encode_utf8_decode_utf8(b);
    }
    lemma_bytes_total(encode_utf8(a), encode_utf8(b));
}

pub proof fn lemma_name_orders(s: Set<Seq<char>>)
    ensures
        orders(|a: Seq<char>, b: Seq<char>| name_lt(a, b), s),
{
    let lt = |a: Seq<char>, b: Seq<char>| name_lt(a, b);
    assert forall|x: Seq<char>| s.contains(x) implies !#[trigger] lt(x, x) by {
        lemma_name_irreflexive(x);
    }
    assert forall|x: Seq<char>, y: Seq<char>|
        s.contains(x) && s.contains(y) && x != y implies #[trigger] lt(x, y) || lt(y, x) by {
        lemma_name_total(x, y);
    }
    assert forall|x: Seq<char>, y: Seq<char>, z: Seq<char>|
        s.contains(x) && s.contains(y) && s.contains(z) && #[trigger] lt(x, y) && #[trigger] lt(
            y,
            z,
        ) implies lt(x, z) by {
        lemma_name_transitive(x, y, z);
    }
}

/// `a` comes before `b`.
pub fn before(a: &str, b: &str) -> (less: bool)
    ensures
        less == name_lt(a@, b@),
{
    let x: &[u8] = a.as_bytes();
    let y: &[u8] = b.as_bytes();
    let mut i: usize = 0;
    assert(x@.skip(0) =~= x@);
    assert(y@.skip(0) =~= y@);
    while i < x.len() && i < y.len()
        invariant
            x@ == encode_utf8(a@),
            y@ == encode_utf8(b@),
            i <= x.len(),
            i <= y.len(),
            bytes_lt(x@, y@) == bytes_lt(x@.skip(i as int), y@.skip(i as int)),
        decreases x.len() - i,
    {
        assert(x@.skip(i as int)[0] == x@[i as int]);
        assert(y@.skip(i as int)[0] == y@[i as int]);
        assert(x@.skip(i as int).drop_first() =~= x@.skip(i + 1));
        assert(y@.skip(i as int).drop_first() =~= y@.skip(i + 1));
        if x[i] != y[i] {
            return x[i] < y[i];
        }
        i = i + 1;
    }
    i < y.len()
}

/// The texts of the names.
pub open spec fn texts(names: Seq<String>) -> Seq<Seq<char>> {
    names.map_values(|name: String| name@)
}

/// The names are in order, each once.
pub open spec fn in_order(names: Seq<Seq<char>>) -> bool {
    forall|i: int, j: int|
        0 <= i < j < names.len() ==> name_lt(#[trigger] names[i], #[trigger] names[j])
}

/// Where `name` belongs among names in order.
pub fn place(names: &Vec<String>, name: &str) -> (at: usize)
    requires
        in_order(texts(names@)),
    ensures
        at <= names.len(),
        forall|i: int| 0 <= i < at ==> name_lt(#[trigger] texts(names@)[i], name@),
        forall|i: int| at <= i < names.len() ==> !name_lt(#[trigger] texts(names@)[i], name@),
{
    let ghost all = texts(names@);
    let mut low: usize = 0;
    let mut high: usize = names.len();
    while low < high
        invariant
            all == texts(names@),
            in_order(all),
            low <= high <= names.len(),
            forall|i: int| 0 <= i < low ==> name_lt(#[trigger] all[i], name@),
            forall|i: int| high <= i < names.len() ==> !name_lt(#[trigger] all[i], name@),
        decreases high - low,
    {
        let mid: usize = low + (high - low) / 2;
        assert(all[mid as int] == names@[mid as int]@);
        if before(names[mid].as_str(), name) {
            proof {
                assert forall|i: int| 0 <= i < mid + 1 implies name_lt(#[trigger] all[i], name@) by {
                    if i < mid {
                        lemma_name_transitive(all[i], all[mid as int], name@);
                    }
                }
            }
            low = mid + 1;
        } else {
            proof {
                assert forall|i: int| mid <= i < names.len() implies !name_lt(
                    #[trigger] all[i],
                    name@,
                ) by {
                    if mid < i && name_lt(all[i], name@) {
                        lemma_name_transitive(all[mid as int], all[i], name@);
                    }
                }
            }
            high = mid;
        }
    }
    low
}

/// The name is at its place, or nowhere.
pub proof fn lemma_place(names: Seq<Seq<char>>, name: Seq<char>, at: int)
    requires
        in_order(names),
        0 <= at <= names.len(),
        forall|i: int| 0 <= i < at ==> name_lt(#[trigger] names[i], name),
        forall|i: int| at <= i < names.len() ==> !name_lt(#[trigger] names[i], name),
    ensures
        names.contains(name) <==> at < names.len() && names[at] == name,
        !names.contains(name) ==> forall|i: int|
            at <= i < names.len() ==> name_lt(name, #[trigger] names[i]),
        !names.contains(name) ==> in_order(names.insert(at, name)),
{
    lemma_name_irreflexive(name);
    if names.contains(name) {
        let k = choose|k: int| 0 <= k < names.len() && names[k] == name;
        if k < at {
            assert(name_lt(names[k], name));
        } else if at < k {
            assert(name_lt(names[at], names[k]));
        }
    } else {
        assert forall|i: int| at <= i < names.len() implies name_lt(name, #[trigger] names[i]) by {
            if names[i] != name {
                lemma_name_total(names[i], name);
            }
        }
        let more = names.insert(at, name);
        assert forall|i: int, j: int| 0 <= i < j < more.len() implies name_lt(
            #[trigger] more[i],
            #[trigger] more[j],
        ) by {
            let a = if i < at {
                i
            } else {
                i - 1
            };
            let b = if j < at {
                j
            } else {
                j - 1
            };
            if i != at {
                assert(more[i] == names[a]);
            }
            if j != at {
                assert(more[j] == names[b]);
            }
        }
    }
}

} // verus!

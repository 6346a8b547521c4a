//! The catalog of checks and what each costs.
use vstd::prelude::*;

use crate::listing::{lemma_listing, lemma_listing_unique, listing};
use crate::names::{
    in_order, lemma_name_irreflexive, lemma_name_orders, lemma_place, name_lt, place, texts,
};

verus! {

/// The seconds that each check takes, by name.
#[derive(Debug)]
pub struct CheckCosts {
    names: Vec<String>,
    costs: Vec<u64>,
}

/// What a catalog of names in order with a cost each says.
spec fn priced_names(names: Seq<Seq<char>>, costs: Seq<u64>) -> Map<Seq<char>, u64> {
    Map::new(|name: Seq<char>| names.contains(name), |name: Seq<char>| costs[names.index_of(name)])
}

proof fn lemma_in_order_apart(names: Seq<Seq<char>>, i: int, j: int)
    requires
        in_order(names),
        0 <= i < names.len(),
        0 <= j < names.len(),
        names[i] == names[j],
    ensures
        i == j,
{
    lemma_name_irreflexive(names[i]);
    if i < j {
        assert(name_lt(names[i], names[j]));
    } else if j < i {
        assert(name_lt(names[j], names[i]));
    }
}

proof fn lemma_priced_at(names: Seq<Seq<char>>, costs: Seq<u64>, i: int)
    requires
        in_order(names),
        0 <= i < names.len(),
    ensures
        priced_names(names, costs).contains_key(names[i]),
        priced_names(names, costs)[names[i]] == costs[i],
        names.index_of(names[i]) == i,
{
    assert(names.contains(names[i]));
    let k = names.index_of(names[i]);
    assert(0 <= k < names.len() && names[k] == names[i]);
    lemma_in_order_apart(names, i, k);
}

/// The names of the checks in order.
pub open spec fn listed(costs: Map<Seq<char>, u64>) -> Seq<Seq<char>> {
    listing(costs.dom(), |a: Seq<char>, b: Seq<char>| name_lt(a, b))
}

impl View for CheckCosts {
    type V = Map<Seq<char>, u64>;

    closed spec fn view(&self) -> Map<Seq<char>, u64> {
        priced_names(texts(self.names@), self.costs@)
    }
}

impl Clone for CheckCosts {
    fn clone(&self) -> (copy: Self)
        ensures
            copy@ == self@,
    {
        proof {
            use_type_invariant(self);
        }
        let names: Vec<String> = self.names.clone();
        let costs: Vec<u64> = self.costs.clone();
        assert(texts(names@) =~= texts(self.names@));
        CheckCosts { names, costs }
    }
}

impl Default for CheckCosts {
    fn default() -> (catalog: Self)
        ensures
            catalog@ == Map::<Seq<char>, u64>::empty(),
    {
        CheckCosts::new()
    }
}

impl CheckCosts {
    #[verifier::type_invariant]
    closed spec fn inv(self) -> bool {
        &&& in_order(texts(self.names@))
        &&& self.names.len() == self.costs.len()
    }

    /// A catalog without checks.
    pub fn new() -> (catalog: Self)
        ensures
            catalog@ == Map::<Seq<char>, u64>::empty(),
    {
        let catalog = CheckCosts { names: Vec::new(), costs: Vec::new() };
        assert(catalog@ =~= Map::empty());
        catalog
    }

    /// Adds a check, or replaces what it costs.
    pub fn insert(&mut self, name: String, cost: u64)
        ensures
            final(self)@ == old(self)@.insert(name@, cost),
    {
        proof {
            use_type_invariant(&*self);
        }
        let ghost old_names = texts(self.names@);
        let ghost old_costs = self.costs@;
        let ghost text = name@;
        let at: usize = place(&self.names, name.as_str());
        proof {
            lemma_place(old_names, text, at as int);
        }
        let mut catalog = CheckCosts::new();
        std::mem::swap(&mut catalog, self);
        let mut names: Vec<String> = catalog.names;
        let mut costs: Vec<u64> = catalog.costs;
        let known: bool = at < names.len() && names[at] == name;
        if known {
            costs.set(at, cost);
        } else {
            names.insert(at, name);
            costs.insert(at, cost);
        }
        proof {
            let new_names = texts(names@);
            let new_costs = costs@;
            if known {
                assert(old_names[at as int] == text);
                assert(new_names =~= old_names);
            } else {
                assert(at < old_names.len() ==> old_names[at as int] != text);
                assert(new_names =~= old_names.insert(at as int, text));
            }
            assert forall|n: Seq<char>| #[trigger] new_names.contains(n) <==> old_names.contains(n)
                || n == text by {
                if new_names.contains(n) {
                    let k = choose|k: int| 0 <= k < new_names.len() && new_names[k] == n;
                    if !known {
                        if k < at {
                            assert(old_names[k] == n);
                        } else if k > at {
                            assert(old_names[k - 1] == n);
                        }
                    }
                }
                if old_names.contains(n) {
                    let k = choose|k: int| 0 <= k < old_names.len() && old_names[k] == n;
                    if !known && k >= at {
                        assert(new_names[k + 1] == n);
                    } else {
                        assert(new_names[k] == n);
                    }
                }
                if n == text {
                    assert(new_names[at as int] == n);
                }
            }
            assert forall|n: Seq<char>| new_names.contains(n) implies #[trigger] priced_names(
                new_names,
                new_costs,
            )[n] == priced_names(old_names, old_costs).insert(text, cost)[n] by {
                if n == text {
                    assert(new_names[at as int] == n);
                    lemma_priced_at(new_names, new_costs, at as int);
                } else {
                    assert(old_names.contains(n));
                    let k = choose|k: int| 0 <= k < old_names.len() && old_names[k] == n;
                    lemma_priced_at(old_names, old_costs, k);
                    let m = if !known && k >= at {
                        k + 1
                    } else {
                        k
                    };
                    assert(new_names[m] == n);
                    lemma_priced_at(new_names, new_costs, m);
                }
            }
            assert(priced_names(new_names, new_costs) =~= priced_names(
                old_names,
                old_costs,
            ).insert(text, cost));
        }
        *self = CheckCosts { names, costs };
    }

    /// What a check costs, if it is in the catalog.
    pub fn get(&self, name: &str) -> (cost: Option<u64>)
        ensures
            match cost {
                Some(cost) => self@.contains_key(name@) && self@[name@] == cost,
                None => !self@.contains_key(name@),
            },
    {
        proof {
            use_type_invariant(self);
        }
        match self.position(name) {
            Some(at) => {
                proof {
                    lemma_listed(texts(self.names@), self.costs@);
                    assert(texts(self.names@).len() == self.names.len());
                    lemma_priced_at(texts(self.names@), self.costs@, at as int);
                }
                Some(self.costs[at])
            },
            None => None,
        }
    }

    /// Where a check stands among the names in order.
    pub fn position(&self, name: &str) -> (at: Option<usize>)
        ensures
            match at {
                Some(at) => at < listed(self@).len() && listed(self@)[at as int] == name@,
                None => !listed(self@).contains(name@),
            },
            at is Some <==> self@.contains_key(name@),
            listed(self@).no_duplicates(),
    {
        proof {
            use_type_invariant(self);
            lemma_listed(texts(self.names@), self.costs@);
        }
        let at: usize = place(&self.names, name);
        proof {
            lemma_place(texts(self.names@), name@, at as int);
        }
        if at < self.names.len() {
            assert(texts(self.names@)[at as int] == self.names@[at as int]@);
            if same_text(self.names[at].as_str(), name) {
                return Some(at);
            }
        }
        None
    }

    /// The costs in the order of the names.
    pub fn costs(&self) -> (costs: Vec<u64>)
        ensures
            costs@ == listed(self@).map_values(|name: Seq<char>| self@[name]),
            costs.len() == listed(self@).len(),
    {
        proof {
            use_type_invariant(self);
            lemma_listed(texts(self.names@), self.costs@);
            let names = texts(self.names@);
            assert forall|i: int| 0 <= i < names.len() implies self.costs@[i] == self@[
                #[trigger] names[i]
            ] by {
                lemma_priced_at(names, self.costs@, i);
            }
            assert(self.costs@ =~= names.map_values(|name: Seq<char>| self@[name]));
        }
        self.costs.clone()
    }
}

/// The names in order are the catalog's names listed.
proof fn lemma_listed(names: Seq<Seq<char>>, costs: Seq<u64>)
    requires
        in_order(names),
    ensures
        listed(priced_names(names, costs)) == names,
        priced_names(names, costs).dom().finite(),
        names.no_duplicates(),
{
    let m = priced_names(names, costs);
    let lt = |a: Seq<char>, b: Seq<char>| name_lt(a, b);
    assert(names.to_set() =~= m.dom());
    lemma_name_orders(m.dom());
    lemma_listing_unique(names, m.dom(), lt);
    lemma_listing(m.dom(), lt);
}

/// Both have the same text.
pub fn same_text(a: &str, b: &str) -> (same: bool)
    ensures
        same == (a@ == b@),
{
    let same: bool = !crate::names::before(a, b) && !crate::names::before(b, a);
    proof {
        lemma_name_irreflexive(a@);
        if a@ != b@ {
            crate::names::lemma_name_total(a@, b@);
        }
    }
    same
}

/// The catalog lists each known check once, by name, and there are no more than fit in
/// memory.
pub proof fn lemma_catalog(costs: CheckCosts)
    ensures
        in_order(listed(costs@)),
        costs@.dom().finite(),
        listed(costs@).no_duplicates(),
        listed(costs@).to_set() == costs@.dom(),
        listed(costs@).len() <= usize::MAX,
{
    let names = texts(costs.names@);
    let dom = costs@.dom();
    assert(dom =~= names.to_set());
    lemma_name_orders(dom);
    lemma_listing(dom, |a: Seq<char>, b: Seq<char>| name_lt(a, b));
    listed(costs@).unique_seq_to_set();
    vstd::seq_lib::seq_to_set_is_finite(names);
    names.lemma_cardinality_of_set();
    assert(costs.names@.len() == costs.names.len());
}

} // verus!

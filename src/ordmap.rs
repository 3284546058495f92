//! A map kept as a vector of entries sorted by key.
//!
//! Lookups and insertions scan the entries; the map is meant for the few
//! dozen properties of a node and the few hundred nodes of a tree.
use core::cmp::Ordering;
use vstd::prelude::*;

use crate::text::{compare_text, lemma_text_lt_irrefl, lemma_text_lt_trans, text_lt};

verus! {

/// A key with a strict total order on its view.
pub trait OrderedKey: View + Sized {
    spec fn view_lt(a: Self::V, b: Self::V) -> bool;

    proof fn lemma_view_lt_trans(a: Self::V, b: Self::V, c: Self::V)
        requires
            Self::view_lt(a, b),
            Self::view_lt(b, c),
        ensures
            Self::view_lt(a, c),
    ;

    proof fn lemma_view_lt_irrefl(a: Self::V)
        ensures
            !Self::view_lt(a, a),
    ;

    fn compare_key(&self, other: &Self) -> (r: Ordering)
        ensures
            (r == Ordering::Less) == Self::view_lt(self@, other@),
            (r == Ordering::Equal) == (self@ == other@),
            (r == Ordering::Greater) == Self::view_lt(other@, self@),
    ;
}

impl OrderedKey for String {
    open spec fn view_lt(a: Seq<char>, b: Seq<char>) -> bool {
        text_lt(a, b)
    }

    proof fn lemma_view_lt_trans(a: Seq<char>, b: Seq<char>, c: Seq<char>) {
        lemma_text_lt_trans(a, b, c);
    }

    proof fn lemma_view_lt_irrefl(a: Seq<char>) {
        lemma_text_lt_irrefl(a);
    }

    fn compare_key(&self, other: &Self) -> (r: Ordering) {
        compare_text(self.as_str(), other.as_str())
    }
}

/// Entries sorted strictly by key, together with the map they stand for.
pub struct OrdMap<K: OrderedKey, V: View> {
    entries: Vec<(K, V)>,
    mapping: Ghost<Map<<K as View>::V, <V as View>::V>>,
}

impl<K: OrderedKey, V: View> View for OrdMap<K, V> {
    type V = Map<K::V, V::V>;

    closed spec fn view(&self) -> Map<K::V, V::V> {
        self.mapping@
    }
}

/// The entries are strictly increasing by key, and they are exactly the
/// key/value pairs of `m`.
pub open spec fn sorted_entries<K: OrderedKey, V: View>(e: Seq<(K, V)>, m: Map<K::V, V::V>) -> bool {
    &&& forall|i: int, j: int|
        0 <= i < j < e.len() ==> K::view_lt(#[trigger] e[i].0@, #[trigger] e[j].0@)
    &&& forall|i: int|
        0 <= i < e.len() ==> {
            &&& m.contains_key(#[trigger] e[i].0@)
            &&& m[e[i].0@] == e[i].1@
        }
    &&& forall|k: K::V| #[trigger]
        m.contains_key(k) ==> exists|i: int| 0 <= i < e.len() && #[trigger] e[i].0@ == k
}

impl<K: OrderedKey, V: View> OrdMap<K, V> {
    #[verifier::type_invariant]
    closed spec fn wf(&self) -> bool {
        sorted_entries(self.entries@, self.mapping@)
    }

    pub fn new() -> (r: Self)
        ensures
            r@ == Map::<K::V, V::V>::empty(),
    {
        OrdMap { entries: Vec::new(), mapping: Ghost(Map::empty()) }
    }

    /// Sets the value of `k`, replacing any value it had.
    pub fn insert(&mut self, k: K, v: V)
        ensures
            final(self)@ == old(self)@.insert(k@, v@),
    {
        let mut taken = OrdMap::new();
        core::mem::swap(&mut taken, self);
        proof {
            use_type_invariant(&taken);
        }
        let OrdMap { entries, mapping } = taken;
        let ghost m = mapping@;
        let ghost kv = k@;
        let ghost vv = v@;
        let mut entries = entries;
        let n = entries.len();
        let mut i: usize = 0;
        let mut found = false;
        while i < n
            invariant_except_break
                !found,
            invariant
                sorted_entries(entries@, m),
                n == entries@.len(),
                i <= n,
                kv == k@,
                forall|j: int| 0 <= j < i ==> K::view_lt(#[trigger] entries@[j].0@, kv),
            ensures
                sorted_entries(entries@, m),
                n == entries@.len(),
                i <= n,
                found ==> i < n && entries@[i as int].0@ == kv,
                !found && i < n ==> K::view_lt(kv, entries@[i as int].0@),
                forall|j: int| 0 <= j < i ==> K::view_lt(#[trigger] entries@[j].0@, kv),
            decreases n - i,
        {
            match entries[i].0.compare_key(&k) {
                Ordering::Less => {
                    i = i + 1;
                },
                Ordering::Equal => {
                    found = true;
                    break ;
                },
                Ordering::Greater => {
                    break ;
                },
            }
        }
        let ghost old_entries = entries@;
        let ghost nm = m.insert(kv, vv);
        if found {
            entries.set(i, (k, v));
            proof {
                let e = entries@;
                assert forall|j: int| 0 <= j < n && j != i implies old_entries[j].0@ != kv by {
                    K::lemma_view_lt_irrefl(kv);
                    if j > i {
                        assert(K::view_lt(old_entries[i as int].0@, old_entries[j].0@));
                    }
                }
                assert forall|a: int, b: int| 0 <= a < b < e.len() implies K::view_lt(
                    #[trigger] e[a].0@,
                    #[trigger] e[b].0@,
                ) by {
                    assert(old_entries[a].0@ == e[a].0@);
                    assert(old_entries[b].0@ == e[b].0@);
                }
                assert forall|a: int| 0 <= a < e.len() implies {
                    &&& nm.contains_key(#[trigger] e[a].0@)
                    &&& nm[e[a].0@] == e[a].1@
                } by {
                    if a != i {
                        assert(e[a] == old_entries[a]);
                    }
                }
                assert forall|k2: K::V| #[trigger] nm.contains_key(k2) implies exists|j: int|
                    0 <= j < e.len() && #[trigger] e[j].0@ == k2 by {
                    if k2 == kv {
                        assert(e[i as int].0@ == k2);
                    } else {
                        let j = choose|j: int|
                            0 <= j < old_entries.len() && #[trigger] old_entries[j].0@ == k2;
                        assert(e[j].0@ == k2);
                    }
                }
            }
        } else {
            proof {
                assert forall|j: int| i <= j < n implies K::view_lt(
                    kv,
                    #[trigger] old_entries[j].0@,
                ) by {
                    if j > i {
                        K::lemma_view_lt_trans(kv, old_entries[i as int].0@, old_entries[j].0@);
                    }
                }
                assert forall|j: int| 0 <= j < n implies old_entries[j].0@ != kv by {
                    K::lemma_view_lt_irrefl(kv);
                }
            }
            entries.insert(i, (k, v));
            proof {
                let e = entries@;
                assert(e.len() == n + 1);
                assert forall|a: int, b: int| 0 <= a < b < e.len() implies K::view_lt(
                    #[trigger] e[a].0@,
                    #[trigger] e[b].0@,
                ) by {
                    if b < i {
                    } else if b == i {
                    } else if a < i {
                        K::lemma_view_lt_trans(e[a].0@, kv, e[b].0@);
                    } else if a == i {
                    } else {
                        assert(e[a] == old_entries[a - 1]);
                        assert(e[b] == old_entries[b - 1]);
                    }
                }
                assert forall|a: int| 0 <= a < e.len() implies {
                    &&& nm.contains_key(#[trigger] e[a].0@)
                    &&& nm[e[a].0@] == e[a].1@
                } by {
                    if a < i {
                        assert(e[a] == old_entries[a]);
                    } else if a > i {
                        assert(e[a] == old_entries[a - 1]);
                    }
                }
                assert forall|k2: K::V| #[trigger] nm.contains_key(k2) implies exists|j: int|
                    0 <= j < e.len() && #[trigger] e[j].0@ == k2 by {
                    if k2 == kv {
                        assert(e[i as int].0@ == k2);
                    } else {
                        let j = choose|j: int|
                            0 <= j < old_entries.len() && #[trigger] old_entries[j].0@ == k2;
                        if j < i {
                            assert(e[j] == old_entries[j]);
                        } else {
                            assert(e[j + 1] == old_entries[j]);
                        }
                    }
                }
            }
        }
        *self = OrdMap { entries, mapping: Ghost(nm) };
    }

    /// The value of `k`, if the map holds it.
    pub fn get(&self, k: &K) -> (r: Option<&V>)
        ensures
            r is Some <==> self@.contains_key(k@),
            r is Some ==> r->0@ == self@[k@],
    {
        proof {
            use_type_invariant(self);
        }
        let n = self.entries.len();
        let mut i: usize = 0;
        while i < n
            invariant
                sorted_entries(self.entries@, self.mapping@),
                n == self.entries@.len(),
                i <= n,
                forall|j: int| 0 <= j < i ==> K::view_lt(#[trigger] self.entries@[j].0@, k@),
            ensures
                i <= n,
                i < n ==> K::view_lt(k@, self.entries@[i as int].0@),
                forall|j: int| 0 <= j < i ==> K::view_lt(#[trigger] self.entries@[j].0@, k@),
            decreases n - i,
        {
            match self.entries[i].0.compare_key(k) {
                Ordering::Less => {
                    i = i + 1;
                },
                Ordering::Equal => {
                    return Some(&self.entries[i].1);
                },
                Ordering::Greater => {
                    break ;
                },
            }
        }
        proof {
            if self@.contains_key(k@) {
                let j = choose|j: int|
                    0 <= j < self.entries@.len() && #[trigger] self.entries@[j].0@ == k@;
                K::lemma_view_lt_irrefl(k@);
                if j > i {
                    assert(K::view_lt(self.entries@[i as int].0@, self.entries@[j].0@));
                    K::lemma_view_lt_trans(k@, self.entries@[i as int].0@, k@);
                }
            }
        }
        None
    }

    /// The entries in increasing key order.
    pub fn entries(&self) -> (r: &Vec<(K, V)>)
        ensures
            sorted_entries(r@, self@),
    {
        proof {
            use_type_invariant(self);
        }
        &self.entries
    }

    /// The number of keys.
    pub fn len(&self) -> (r: usize)
        ensures
            r == self@.dom().len(),
    {
        proof {
            use_type_invariant(self);
            lemma_sorted_len(self.entries@, self.mapping@);
        }
        self.entries.len()
    }
}

proof fn lemma_sorted_len<K: OrderedKey, V: View>(e: Seq<(K, V)>, m: Map<K::V, V::V>)
    requires
        sorted_entries(e, m),
    ensures
        e.len() == m.dom().len(),
{
    let keys = e.map_values(|x: (K, V)| x.0@);
    assert forall|a: int, b: int| 0 <= a < b < keys.len() implies keys[a] != keys[b] by {
        assert(K::view_lt(e[a].0@, e[b].0@));
        K::lemma_view_lt_irrefl(keys[a]);
    }
    assert(keys.no_duplicates());
    assert(keys.to_set() =~= m.dom()) by {
        assert forall|k: K::V| #[trigger] m.dom().contains(k) implies keys.to_set().contains(k) by {
            let j = choose|j: int| 0 <= j < e.len() && #[trigger] e[j].0@ == k;
            assert(keys[j] == k);
        }
        assert forall|k: K::V| keys.to_set().contains(k) implies #[trigger] m.dom().contains(k) by {
            let j = choose|j: int| 0 <= j < keys.len() && keys[j] == k;
            assert(e[j].0@ == k);
        }
    }
    keys.unique_seq_to_set();
}

} // verus!

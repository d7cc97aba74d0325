//! A finite map keyed by strings: entries held in strictly increasing key
//! order, looked up by bisection.
use vstd::prelude::*;
use crate::table::strings_sorted;
use crate::text::{Order, compare_str, lemma_seq_lt_irrefl, lemma_seq_lt_total, lemma_seq_lt_trans, seq_lt};

verus! {

/// The keys of a list of entries, as character sequences.
pub open spec fn entry_keys<V>(e: Seq<(String, V)>) -> Seq<Seq<char>> {
    e.map_values(|p: (String, V)| p.0@)
}

/// Whether some entry carries key `k`.
pub open spec fn has_key<V>(e: Seq<(String, V)>, k: Seq<char>) -> bool {
    exists|i: int| 0 <= i < e.len() && (#[trigger] e[i]).0@ == k
}

/// The map a list of entries with distinct keys denotes.
pub open spec fn entries_map<V>(e: Seq<(String, V)>) -> Map<Seq<char>, V> {
    Map::new(
        |k: Seq<char>| has_key(e, k),
        |k: Seq<char>| e[key_index(e, k)].1,
    )
}

/// A position of an entry with key `k`.
pub open spec fn key_index<V>(e: Seq<(String, V)>, k: Seq<char>) -> int {
    choose|i: int| 0 <= i < e.len() && (#[trigger] e[i]).0@ == k
}

/// A finite map from strings, its entries kept sorted by key.
pub struct StrTable<V> {
    entries: Vec<(String, V)>,
}

impl<V> View for StrTable<V> {
    type V = Map<Seq<char>, V>;

    closed spec fn view(&self) -> Map<Seq<char>, V> {
        entries_map(self.entries@)
    }
}

/// In a list with strictly sorted keys, the entry at `i` is the only one with
/// its key.
proof fn lemma_unique_key<V>(e: Seq<(String, V)>, i: int)
    requires
        strings_sorted(entry_keys(e)),
        0 <= i < e.len(),
    ensures
        entries_map(e).contains_key(e[i].0@),
        entries_map(e)[e[i].0@] == e[i].1,
{
    let k = e[i].0@;
    assert(has_key(e, k));
    let j = key_index(e, k);
    assert(0 <= j < e.len() && e[j].0@ == k);
    if j != i {
        lemma_seq_lt_irrefl(k);
        if j < i {
            assert(seq_lt(entry_keys(e)[j], entry_keys(e)[i]));
        } else {
            assert(seq_lt(entry_keys(e)[i], entry_keys(e)[j]));
        }
    }
    assert(entries_map(e)[k] == e[j].1);
}

impl<V> StrTable<V> {
    #[verifier::type_invariant]
    spec fn sorted(self) -> bool {
        strings_sorted(entry_keys(self.entries@))
    }

    /// An empty table.
    pub fn new() -> (t: Self)
        ensures
            t@ == Map::<Seq<char>, V>::empty(),
    {
        let t = StrTable { entries: Vec::new() };
        proof {
            assert(entries_map(t.entries@) =~= Map::<Seq<char>, V>::empty());
        }
        t
    }

    /// Where `k` is, or where it would go.
    fn search(&self, k: &str) -> (r: Result<usize, usize>)
        ensures
            strings_sorted(entry_keys(self.entries@)),
            match r {
                Ok(i) => i < self.entries@.len() && self.entries@[i as int].0@ == k@,
                Err(i) => i <= self.entries@.len() && (forall|j: int|
                    0 <= j < i ==> seq_lt((#[trigger] self.entries@[j]).0@, k@)) && (forall|j: int|
                    i <= j < self.entries@.len() ==> seq_lt(k@, (#[trigger] self.entries@[j]).0@)),
            },
            r is Err <==> !has_key(self.entries@, k@),
    {
        proof {
            use_type_invariant(self);
        }
        let ghost e = self.entries@;
        let mut lo: usize = 0;
        let mut hi: usize = self.entries.len();
        while lo < hi
            invariant
                e == self.entries@,
                strings_sorted(entry_keys(e)),
                lo <= hi <= e.len(),
                forall|j: int| 0 <= j < lo ==> seq_lt((#[trigger] e[j]).0@, k@),
                forall|j: int| hi <= j < e.len() ==> seq_lt(k@, (#[trigger] e[j]).0@),
            decreases hi - lo,
        {
            let mid = lo + (hi - lo) / 2;
            match compare_str(self.entries[mid].0.as_str(), k) {
                Order::Equal => {
                    return Ok(mid);
                },
                Order::Less => {
                    proof {
                        assert forall|j: int| 0 <= j < mid + 1 implies seq_lt((#[trigger] e[j]).0@, k@) by {
                            if j < mid {
                                assert(seq_lt(entry_keys(e)[j], entry_keys(e)[mid as int]));
                                lemma_seq_lt_trans(e[j].0@, e[mid as int].0@, k@);
                            }
                        }
                    }
                    lo = mid + 1;
                },
                Order::Greater => {
                    proof {
                        lemma_seq_lt_total(k@, e[mid as int].0@);
                        assert forall|j: int| mid <= j < e.len() implies seq_lt(k@, (#[trigger] e[j]).0@) by {
                            if j > mid {
                                assert(seq_lt(entry_keys(e)[mid as int], entry_keys(e)[j]));
                                lemma_seq_lt_trans(k@, e[mid as int].0@, e[j].0@);
                            }
                        }
                    }
                    hi = mid;
                },
            }
        }
        proof {
            if has_key(e, k@) {
                let j = choose|j: int| 0 <= j < e.len() && (#[trigger] e[j]).0@ == k@;
                lemma_seq_lt_irrefl(k@);
            }
        }
        Err(lo)
    }

    /// The value bound to `k`, if any.
    pub fn get(&self, k: &str) -> (r: Option<&V>)
        ensures
            match r {
                Some(v) => self@.contains_key(k@) && *v == self@[k@],
                None => !self@.contains_key(k@),
            },
    {
        match self.search(k) {
            Ok(i) => {
                proof {
                    lemma_unique_key(self.entries@, i as int);
                }
                Some(&self.entries[i].1)
            },
            Err(_) => None,
        }
    }

    /// Whether `k` is bound.
    pub fn contains(&self, k: &str) -> (r: bool)
        ensures
            r == self@.contains_key(k@),
    {
        self.search(k).is_ok()
    }

    /// Bind `k` to `v`, replacing any earlier binding.
    pub fn insert(&mut self, k: String, v: V)
        ensures
            final(self)@ == old(self)@.insert(k@, v),
    {
        let r = self.search(k.as_str());
        let ghost ke = k@;
        let mut e: Vec<(String, V)> = Vec::new();
        std::mem::swap(&mut e, &mut self.entries);
        let ghost old_e = e@;
        assert(old(self).entries@ == old_e);
        match r {
            Ok(i) => {
                e.set(i, (k, v));
                proof {
                    assert(entry_keys(e@) =~= entry_keys(old_e));
                    assert(strings_sorted(entry_keys(e@)));
                    assert forall|x: Seq<char>| #[trigger] entries_map(e@).contains_key(x) == entries_map(
                        old_e,
                    ).insert(ke, v).contains_key(x) by {
                        if has_key(old_e, x) {
                            let j = choose|j: int| 0 <= j < old_e.len() && (#[trigger] old_e[j]).0@ == x;
                            assert(e@[j].0@ == x);
                        }
                        if has_key(e@, x) {
                            let j = choose|j: int| 0 <= j < e@.len() && (#[trigger] e@[j]).0@ == x;
                            assert(old_e[j].0@ == x);
                        }
                    }
                    assert forall|x: Seq<char>| #[trigger] entries_map(e@).contains_key(x) implies entries_map(
                        e@,
                    )[x] == entries_map(old_e).insert(ke, v)[x] by {
                        let j = choose|j: int| 0 <= j < e@.len() && (#[trigger] e@[j]).0@ == x;
                        lemma_unique_key(e@, j);
                        if j != i {
                            assert(e@[j] == old_e[j]);
                            lemma_unique_key(old_e, j);
                            lemma_seq_lt_irrefl(x);
                            if j < i {
                                assert(seq_lt(entry_keys(old_e)[j], entry_keys(old_e)[i as int]));
                            } else {
                                assert(seq_lt(entry_keys(old_e)[i as int], entry_keys(old_e)[j]));
                            }
                            assert(x != ke);
                        }
                    }
                    assert(entries_map(e@) =~= entries_map(old_e).insert(ke, v));
                }
            },
            Err(i) => {
                e.insert(i, (k, v));
                proof {
                    let ne = e@;
                    assert forall|a: int, b: int| 0 <= a < b < ne.len() implies seq_lt(
                        #[trigger] entry_keys(ne)[a],
                        #[trigger] entry_keys(ne)[b],
                    ) by {
                        if b < i {
                            assert(seq_lt(entry_keys(old_e)[a], entry_keys(old_e)[b]));
                        } else if a > i {
                            assert(seq_lt(entry_keys(old_e)[a - 1], entry_keys(old_e)[b - 1]));
                        } else if a == i {
                            assert(ne[b] == old_e[b - 1]);
                        } else if b == i {
                            assert(ne[a] == old_e[a]);
                        } else {
                            assert(ne[a] == old_e[a]);
                            assert(ne[b] == old_e[b - 1]);
                            lemma_seq_lt_trans(old_e[a].0@, ke, old_e[b - 1].0@);
                        }
                    }
                    assert forall|x: Seq<char>| #[trigger] entries_map(ne).contains_key(x) == entries_map(
                        old_e,
                    ).insert(ke, v).contains_key(x) by {
                        if has_key(old_e, x) {
                            let j = choose|j: int| 0 <= j < old_e.len() && (#[trigger] old_e[j]).0@ == x;
                            if j < i {
                                assert(ne[j].0@ == x);
                            } else {
                                assert(ne[j + 1].0@ == x);
                            }
                        }
                        if x == ke {
                            assert(ne[i as int].0@ == x);
                        }
                        if has_key(ne, x) {
                            let j = choose|j: int| 0 <= j < ne.len() && (#[trigger] ne[j]).0@ == x;
                            if j < i {
                                assert(old_e[j].0@ == x);
                            } else if j > i {
                                assert(old_e[j - 1].0@ == x);
                            }
                        }
                    }
                    assert forall|x: Seq<char>| #[trigger] entries_map(ne).contains_key(x) implies entries_map(
                        ne,
                    )[x] == entries_map(old_e).insert(ke, v)[x] by {
                        let j = choose|j: int| 0 <= j < ne.len() && (#[trigger] ne[j]).0@ == x;
                        lemma_unique_key(ne, j);
                        if j < i {
                            lemma_unique_key(old_e, j);
                        } else if j > i {
                            lemma_unique_key(old_e, j - 1);
                        }
                    }
                    assert(entries_map(ne) =~= entries_map(old_e).insert(ke, v));
                }
            },
        }
        self.entries = e;
    }
}

} // verus!

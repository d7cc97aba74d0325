//! Sorted tables: strictly increasing vectors of atom identities or strings,
//! searched by bisection. They stand in for ordered sets and maps, and give
//! every enumeration the canonical (sorted) order.
use vstd::prelude::*;
use crate::ir::{AtomKey, KeyV, compare_keys, key_lt, keys_sorted, lemma_key_lt};
use crate::text::{Order, lemma_seq_lt_irrefl, lemma_seq_lt_total, lemma_seq_lt_trans, seq_lt};
use crate::ir::compare_strings;
use vstd::relations::{sorted_by, total_ordering};

verus! {

/// The abstract values of a vector of atom identities.
pub open spec fn key_views(v: Seq<AtomKey>) -> Seq<KeyV> {
    v.map_values(|k: AtomKey| k@)
}

/// The abstract values of a vector of strings.
pub open spec fn string_views(v: Seq<String>) -> Seq<Seq<char>> {
    v.map_values(|s: String| s@)
}

/// An empty table is sorted.
pub proof fn keys_sorted_empty()
    ensures
        crate::ir::keys_sorted(Seq::<KeyV>::empty()),
{
}

/// Appending a string appends its characters.
pub proof fn lemma_string_views_push(v: Seq<String>, x: String)
    ensures
        string_views(v.push(x)) == string_views(v).push(x@),
{
    assert(string_views(v.push(x)) =~= string_views(v).push(x@));
}

/// Strings in strictly increasing lexicographic order.
pub open spec fn strings_sorted(s: Seq<Seq<char>>) -> bool {
    forall|i: int, j: int| 0 <= i < j < s.len() ==> seq_lt(#[trigger] s[i], #[trigger] s[j])
}

/// Where `k` is, or where it would go, in a strictly sorted table: `Ok(i)` when
/// entry `i` equals `k`; `Err(i)` when every entry before `i` orders before `k`
/// and every entry from `i` on orders after it.
pub fn search_key(v: &Vec<AtomKey>, k: &AtomKey) -> (r: Result<usize, usize>)
    requires
        keys_sorted(key_views(v@)),
    ensures
        match r {
            Ok(i) => i < v@.len() && v@[i as int]@ == k@,
            Err(i) => i <= v@.len() && (forall|j: int| 0 <= j < i ==> key_lt(#[trigger] v@[j]@, k@))
                && (forall|j: int| i <= j < v@.len() ==> key_lt(k@, #[trigger] v@[j]@)),
        },
        r is Err <==> !key_views(v@).contains(k@),
{
    let mut lo: usize = 0;
    let mut hi: usize = v.len();
    while lo < hi
        invariant
            keys_sorted(key_views(v@)),
            lo <= hi <= v@.len(),
            forall|j: int| 0 <= j < lo ==> key_lt(#[trigger] v@[j]@, k@),
            forall|j: int| hi <= j < v@.len() ==> key_lt(k@, #[trigger] v@[j]@),
        decreases hi - lo,
    {
        let mid = lo + (hi - lo) / 2;
        match compare_keys(&v[mid], k) {
            Order::Equal => {
                proof {
                    assert(key_views(v@)[mid as int] == k@);
                }
                return Ok(mid);
            },
            Order::Less => {
                proof {
                    assert forall|j: int| 0 <= j < mid + 1 implies key_lt(#[trigger] v@[j]@, k@) by {
                        if j < mid {
                            assert(key_lt(key_views(v@)[j], key_views(v@)[mid as int]));
                            lemma_key_lt(v@[j]@, v@[mid as int]@, k@);
                        }
                    }
                }
                lo = mid + 1;
            },
            Order::Greater => {
                proof {
                    lemma_key_lt(k@, v@[mid as int]@, k@);
                    assert forall|j: int| mid <= j < v@.len() implies key_lt(k@, #[trigger] v@[j]@) by {
                        if j > mid {
                            assert(key_lt(key_views(v@)[mid as int], key_views(v@)[j]));
                            lemma_key_lt(k@, v@[mid as int]@, v@[j]@);
                        }
                    }
                }
                hi = mid;
            },
        }
    }
    proof {
        if key_views(v@).contains(k@) {
            let j = choose|j: int| 0 <= j < key_views(v@).len() && key_views(v@)[j] == k@;
            lemma_key_lt(k@, k@, k@);
            assert(key_views(v@)[j] == v@[j]@);
        }
    }
    Err(lo)
}

/// Insert `k` into a strictly sorted table unless it is already there.
/// Returns whether it was new.
pub fn insert_key(v: &mut Vec<AtomKey>, k: &AtomKey) -> (added: bool)
    requires
        keys_sorted(key_views(old(v)@)),
    ensures
        keys_sorted(key_views(final(v)@)),
        key_views(final(v)@).to_set() == key_views(old(v)@).to_set().insert(k@),
        added == !key_views(old(v)@).contains(k@),
        !added ==> final(v)@ == old(v)@,
{
    match search_key(v, k) {
        Ok(_) => {
            proof {
                assert(key_views(v@).to_set().insert(k@) =~= key_views(v@).to_set());
            }
            false
        },
        Err(i) => {
            let ghost old_v = v@;
            v.insert(i, crate::ir::copy_key(k));
            proof {
                assert(key_views(v@) =~= key_views(old_v).subrange(0, i as int).push(k@) + key_views(
                    old_v,
                ).subrange(i as int, old_v.len() as int));
                assert forall|a: int, b: int| 0 <= a < b < v@.len() implies key_lt(
                    #[trigger] key_views(v@)[a],
                    #[trigger] key_views(v@)[b],
                ) by {
                    if b < i {
                        assert(key_lt(key_views(old_v)[a], key_views(old_v)[b]));
                    } else if a > i {
                        assert(key_lt(key_views(old_v)[a - 1], key_views(old_v)[b - 1]));
                    } else if a == i {
                        assert(key_views(v@)[b] == old_v[b - 1]@);
                    } else if b == i {
                        assert(key_views(v@)[a] == old_v[a]@);
                    } else {
                        assert(key_views(v@)[a] == old_v[a]@);
                        assert(key_views(v@)[b] == old_v[b - 1]@);
                        lemma_key_lt(old_v[a]@, k@, old_v[b - 1]@);
                    }
                }
                assert(key_views(v@).to_set() =~= key_views(old_v).to_set().insert(k@)) by {
                    assert forall|x: KeyV| key_views(v@).to_set().contains(x) implies key_views(
                        old_v,
                    ).to_set().insert(k@).contains(x) by {
                        let j = choose|j: int| 0 <= j < key_views(v@).len() && key_views(v@)[j] == x;
                        if j < i {
                            assert(key_views(old_v)[j] == x);
                        } else if j > i {
                            assert(key_views(old_v)[j - 1] == x);
                        }
                    }
                    assert forall|x: KeyV| key_views(old_v).to_set().insert(k@).contains(
                        x,
                    ) implies key_views(v@).to_set().contains(x) by {
                        if x == k@ {
                            assert(key_views(v@)[i as int] == x);
                        } else {
                            let j = choose|j: int|
                                0 <= j < key_views(old_v).len() && key_views(old_v)[j] == x;
                            if j < i {
                                assert(key_views(v@)[j] == x);
                            } else {
                                assert(key_views(v@)[j + 1] == x);
                            }
                        }
                    }
                }
            }
            true
        },
    }
}

/// Where `s` is, or where it would go, in a strictly sorted table of strings.
pub fn search_string(v: &Vec<String>, s: &String) -> (r: Result<usize, usize>)
    requires
        strings_sorted(string_views(v@)),
    ensures
        match r {
            Ok(i) => i < v@.len() && v@[i as int]@ == s@,
            Err(i) => i <= v@.len() && (forall|j: int| 0 <= j < i ==> seq_lt(#[trigger] v@[j]@, s@))
                && (forall|j: int| i <= j < v@.len() ==> seq_lt(s@, #[trigger] v@[j]@)),
        },
        r is Err <==> !string_views(v@).contains(s@),
{
    let mut lo: usize = 0;
    let mut hi: usize = v.len();
    while lo < hi
        invariant
            strings_sorted(string_views(v@)),
            lo <= hi <= v@.len(),
            forall|j: int| 0 <= j < lo ==> seq_lt(#[trigger] v@[j]@, s@),
            forall|j: int| hi <= j < v@.len() ==> seq_lt(s@, #[trigger] v@[j]@),
        decreases hi - lo,
    {
        let mid = lo + (hi - lo) / 2;
        match compare_strings(&v[mid], s) {
            Order::Equal => {
                proof {
                    assert(string_views(v@)[mid as int] == s@);
                }
                return Ok(mid);
            },
            Order::Less => {
                proof {
                    assert forall|j: int| 0 <= j < mid + 1 implies seq_lt(#[trigger] v@[j]@, s@) by {
                        if j < mid {
                            assert(seq_lt(string_views(v@)[j], string_views(v@)[mid as int]));
                            lemma_seq_lt_trans(v@[j]@, v@[mid as int]@, s@);
                        }
                    }
                }
                lo = mid + 1;
            },
            Order::Greater => {
                proof {
                    lemma_seq_lt_total(s@, v@[mid as int]@);
                    assert forall|j: int| mid <= j < v@.len() implies seq_lt(s@, #[trigger] v@[j]@) by {
                        if j > mid {
                            assert(seq_lt(string_views(v@)[mid as int], string_views(v@)[j]));
                            lemma_seq_lt_trans(s@, v@[mid as int]@, v@[j]@);
                        }
                    }
                }
                hi = mid;
            },
        }
    }
    proof {
        if string_views(v@).contains(s@) {
            let j = choose|j: int| 0 <= j < string_views(v@).len() && string_views(v@)[j] == s@;
            lemma_seq_lt_irrefl(s@);
            assert(string_views(v@)[j] == v@[j]@);
        }
    }
    Err(lo)
}

/// Insert `s` into a strictly sorted table of strings unless it is already
/// there. Returns whether it was new.
pub fn insert_string(v: &mut Vec<String>, s: &String) -> (added: bool)
    requires
        strings_sorted(string_views(old(v)@)),
    ensures
        strings_sorted(string_views(final(v)@)),
        string_views(final(v)@).to_set() == string_views(old(v)@).to_set().insert(s@),
        added == !string_views(old(v)@).contains(s@),
        !added ==> final(v)@ == old(v)@,
{
    match search_string(v, s) {
        Ok(_) => {
            proof {
                assert(string_views(v@).to_set().insert(s@) =~= string_views(v@).to_set());
            }
            false
        },
        Err(i) => {
            let ghost old_v = v@;
            v.insert(i, s.clone());
            proof {
                assert forall|a: int, b: int| 0 <= a < b < v@.len() implies seq_lt(
                    #[trigger] string_views(v@)[a],
                    #[trigger] string_views(v@)[b],
                ) by {
                    if b < i {
                        assert(seq_lt(string_views(old_v)[a], string_views(old_v)[b]));
                    } else if a > i {
                        assert(seq_lt(string_views(old_v)[a - 1], string_views(old_v)[b - 1]));
                    } else if a == i {
                        assert(string_views(v@)[b] == old_v[b - 1]@);
                    } else if b == i {
                        assert(string_views(v@)[a] == old_v[a]@);
                    } else {
                        assert(string_views(v@)[a] == old_v[a]@);
                        assert(string_views(v@)[b] == old_v[b - 1]@);
                        lemma_seq_lt_trans(old_v[a]@, s@, old_v[b - 1]@);
                    }
                }
                assert(string_views(v@).to_set() =~= string_views(old_v).to_set().insert(s@)) by {
                    assert forall|x: Seq<char>| string_views(v@).to_set().contains(
                        x,
                    ) implies string_views(old_v).to_set().insert(s@).contains(x) by {
                        let j = choose|j: int|
                            0 <= j < string_views(v@).len() && string_views(v@)[j] == x;
                        if j < i {
                            assert(string_views(old_v)[j] == x);
                        } else if j > i {
                            assert(string_views(old_v)[j - 1] == x);
                        }
                    }
                    assert forall|x: Seq<char>| string_views(old_v).to_set().insert(s@).contains(
                        x,
                    ) implies string_views(v@).to_set().contains(x) by {
                        if x == s@ {
                            assert(string_views(v@)[i as int] == x);
                        } else {
                            let j = choose|j: int|
                                0 <= j < string_views(old_v).len() && string_views(old_v)[j] == x;
                            if j < i {
                                assert(string_views(v@)[j] == x);
                            } else {
                                assert(string_views(v@)[j + 1] == x);
                            }
                        }
                    }
                }
            }
            true
        },
    }
}

/// The non-strict lexicographic order on strings.
pub open spec fn seq_le(a: Seq<char>, b: Seq<char>) -> bool {
    a == b || seq_lt(a, b)
}

/// `seq_le` as a relation value.
pub open spec fn str_le() -> spec_fn(Seq<char>, Seq<char>) -> bool {
    |a: Seq<char>, b: Seq<char>| seq_le(a, b)
}

/// `seq_le` is a total order.
pub proof fn lemma_str_le_total()
    ensures
        total_ordering(str_le()),
{
    assert forall|x: Seq<char>, y: Seq<char>| #[trigger] str_le()(x, y) && #[trigger] str_le()(y, x) implies x == y by {
        lemma_seq_lt_total(x, y);
    }
    assert forall|x: Seq<char>, y: Seq<char>, z: Seq<char>| #[trigger] str_le()(x, y) && #[trigger] str_le()(y, z) implies str_le()(x, z) by {
        if seq_lt(x, y) && seq_lt(y, z) {
            lemma_seq_lt_trans(x, y, z);
        }
    }
    assert forall|x: Seq<char>, y: Seq<char>| #[trigger] str_le()(x, y) || #[trigger] str_le()(y, x) by {
        lemma_seq_lt_total(x, y);
    }
}

/// The strings of `v` in non-decreasing order (duplicates kept): the unique
/// sorted arrangement of the same multiset.
pub fn sort_strings(v: &Vec<String>) -> (r: Vec<String>)
    ensures
        string_views(r@) == string_views(v@).sort_by(str_le()),
        string_views(r@).to_multiset() == string_views(v@).to_multiset(),
        sorted_by(string_views(r@), str_le()),
{
    let mut r: Vec<String> = Vec::new();
    let mut i: usize = 0;
    proof {
        assert(string_views(r@) =~= string_views(v@).subrange(0, 0));
    }
    while i < v.len()
        invariant
            i <= v@.len(),
            sorted_by(string_views(r@), str_le()),
            string_views(r@).to_multiset() == string_views(v@).subrange(0, i as int).to_multiset(),
        decreases v@.len() - i,
    {
        let x = &v[i];
        // position: after every entry that is not greater than x
        let mut p: usize = 0;
        while p < r.len() && compare_strings(&r[p], x) != Order::Greater
            invariant
                p <= r@.len(),
                forall|k: int| 0 <= k < p ==> seq_le(#[trigger] r@[k]@, x@),
            decreases r@.len() - p,
        {
            proof {
                lemma_seq_lt_total(r@[p as int]@, x@);
            }
            p = p + 1;
        }
        proof {
            if p < r@.len() {
                lemma_seq_lt_total(r@[p as int]@, x@);
            }
        }
        let ghost old_r = string_views(r@);
        r.insert(p, x.clone());
        proof {
            let nr = string_views(r@);
            assert(nr =~= old_r.subrange(0, p as int).push(x@) + old_r.subrange(p as int, old_r.len() as int));
            assert forall|a: int, b: int| 0 <= a < b < nr.len() implies #[trigger] str_le()(nr[a], nr[b]) by {
                assert(str_le()(nr[a], nr[b]) == seq_le(nr[a], nr[b]));
                if b < p {
                    assert(str_le()(old_r[a], old_r[b]));
                } else if a > p {
                    assert(str_le()(old_r[a - 1], old_r[b - 1]));
                } else if a == p {
                    // x <= every later entry
                    assert(nr[b] == old_r[b - 1]);
                    assert(seq_lt(x@, old_r[p as int]) || p == old_r.len());
                    if b - 1 > p {
                        assert(str_le()(old_r[p as int], old_r[b - 1]));
                        if seq_lt(x@, old_r[p as int]) && seq_lt(old_r[p as int], old_r[b - 1]) {
                            lemma_seq_lt_trans(x@, old_r[p as int], old_r[b - 1]);
                        }
                    }
                } else if b == p {
                    assert(nr[a] == old_r[a]);
                    assert(seq_le(r@[a]@, x@) || true);
                    assert(seq_le(old_r[a], x@));
                } else {
                    assert(nr[a] == old_r[a] && nr[b] == old_r[b - 1]);
                    assert(seq_le(old_r[a], x@));
                    assert(seq_lt(x@, old_r[p as int]));
                    assert(str_le()(old_r[p as int], old_r[b - 1]) || b - 1 == p);
                    if seq_lt(old_r[a], x@) {
                        lemma_seq_lt_trans(old_r[a], x@, old_r[p as int]);
                    }
                    if b - 1 > p && seq_lt(old_r[p as int], old_r[b - 1]) {
                        lemma_seq_lt_trans(old_r[a], old_r[p as int], old_r[b - 1]);
                    }
                }
            }
            vstd::seq_lib::lemma_multiset_commutative(old_r.subrange(0, p as int).push(x@), old_r.subrange(p as int, old_r.len() as int));
            vstd::seq_lib::lemma_multiset_commutative(old_r.subrange(0, p as int), old_r.subrange(p as int, old_r.len() as int));
            assert(old_r =~= old_r.subrange(0, p as int) + old_r.subrange(p as int, old_r.len() as int));
            let pre = string_views(v@).subrange(0, i as int);
            assert(string_views(v@).subrange(0, i + 1) =~= pre.push(x@));
            assert(old_r.subrange(0, p as int).push(x@).to_multiset() =~= old_r.subrange(0, p as int).to_multiset().insert(x@)) by {
                broadcast use vstd::seq_lib::group_to_multiset_ensures;
            }
            assert(pre.push(x@).to_multiset() =~= pre.to_multiset().insert(x@)) by {
                broadcast use vstd::seq_lib::group_to_multiset_ensures;
            }
            assert(nr.to_multiset() =~= string_views(v@).subrange(0, i + 1).to_multiset());
        }
        i = i + 1;
    }
    proof {
        assert(string_views(v@).subrange(0, v@.len() as int) =~= string_views(v@));
        lemma_str_le_total();
        string_views(v@).lemma_sort_by_ensures(str_le());
        vstd::seq_lib::lemma_sorted_unique(string_views(r@), string_views(v@).sort_by(str_le()), str_le());
    }
    r
}

} // verus!

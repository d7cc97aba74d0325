//! Compile-time closures of a relation's `(from, to)` pairs, applied by
//! `CLOSE <relation> <kind>`. Every result is the closed set of pairs in
//! canonical (sorted, duplicate-free) order.
use vstd::prelude::*;
use crate::ir::compare_strings;
use crate::table::{insert_string, search_string, string_views, strings_sorted};
use crate::text::{Order, lemma_seq_lt_irrefl, lemma_seq_lt_total, lemma_seq_lt_trans, seq_lt};

verus! {

/// The abstract value of a pair.
pub type PairV = (Seq<char>, Seq<char>);

/// The abstract values of a vector of pairs.
pub open spec fn pair_views(v: Seq<(String, String)>) -> Seq<PairV> {
    v.map_values(|p: (String, String)| (p.0@, p.1@))
}

/// The lexicographic order on pairs.
pub open spec fn pair_lt(a: PairV, b: PairV) -> bool {
    seq_lt(a.0, b.0) || (a.0 == b.0 && seq_lt(a.1, b.1))
}

/// Pairs in strictly increasing order (so also free of duplicates).
pub open spec fn pairs_sorted(s: Seq<PairV>) -> bool {
    forall|i: int, j: int| 0 <= i < j < s.len() ==> pair_lt(#[trigger] s[i], #[trigger] s[j])
}

/// The set of pairs a vector holds.
pub open spec fn pair_set(v: Seq<(String, String)>) -> Set<PairV> {
    pair_views(v).to_set()
}

/// `pairs` is the canonical listing of `s`.
pub open spec fn lists(pairs: Seq<(String, String)>, s: Set<PairV>) -> bool {
    pairs_sorted(pair_views(pairs)) && pair_set(pairs) == s
}

proof fn lemma_pair_lt(a: PairV, b: PairV, c: PairV)
    ensures
        !pair_lt(a, a),
        a != b ==> (pair_lt(a, b) || pair_lt(b, a)),
        !(pair_lt(a, b) && pair_lt(b, a)),
        pair_lt(a, b) && pair_lt(b, c) ==> pair_lt(a, c),
{
    lemma_seq_lt_irrefl(a.0);
    lemma_seq_lt_irrefl(a.1);
    lemma_seq_lt_total(a.0, b.0);
    lemma_seq_lt_total(a.1, b.1);
    if seq_lt(a.0, b.0) && seq_lt(b.0, c.0) {
        lemma_seq_lt_trans(a.0, b.0, c.0);
    }
    if seq_lt(a.1, b.1) && seq_lt(b.1, c.1) {
        lemma_seq_lt_trans(a.1, b.1, c.1);
    }
}

fn compare_pairs(a: &(String, String), b: &(String, String)) -> (r: Order)
    ensures
        r == (if (a.0@, a.1@) == (b.0@, b.1@) {
            Order::Equal
        } else if pair_lt((a.0@, a.1@), (b.0@, b.1@)) {
            Order::Less
        } else {
            Order::Greater
        }),
{
    proof {
        lemma_pair_lt((a.0@, a.1@), (b.0@, b.1@), (b.0@, b.1@));
    }
    match compare_strings(&a.0, &b.0) {
        Order::Less => Order::Less,
        Order::Greater => Order::Greater,
        Order::Equal => compare_strings(&a.1, &b.1),
    }
}

/// Insert a pair into a canonical listing unless it is already there.
pub fn insert_pair(v: &mut Vec<(String, String)>, a: &String, b: &String)
    requires
        pairs_sorted(pair_views(old(v)@)),
    ensures
        pairs_sorted(pair_views(final(v)@)),
        pair_set(final(v)@) == pair_set(old(v)@).insert((a@, b@)),
{
    let p = (a.clone(), b.clone());
    let ghost pv: PairV = (a@, b@);
    let mut lo: usize = 0;
    let mut hi: usize = v.len();
    while lo < hi
        invariant
            pairs_sorted(pair_views(v@)),
            pv == (p.0@, p.1@),
            pv == (a@, b@),
            lo <= hi <= v@.len(),
            forall|j: int| 0 <= j < lo ==> pair_lt(#[trigger] pair_views(v@)[j], pv),
            forall|j: int| hi <= j < v@.len() ==> pair_lt(pv, #[trigger] pair_views(v@)[j]),
        decreases hi - lo,
    {
        let mid = lo + (hi - lo) / 2;
        proof {
            assert(pair_views(v@)[mid as int] == (v@[mid as int].0@, v@[mid as int].1@));
        }
        match compare_pairs(&v[mid], &p) {
            Order::Equal => {
                proof {
                    assert(pair_views(v@)[mid as int] == pv);
                    assert(pair_views(v@).contains(pv));
                    assert(pair_set(v@).insert(pv) =~= pair_set(v@));
                    assert(pair_set(v@).insert((a@, b@)) == pair_set(v@));
                }
                return ;
            },
            Order::Less => {
                proof {
                    assert forall|j: int| 0 <= j < mid + 1 implies pair_lt(
                        #[trigger] pair_views(v@)[j],
                        pv,
                    ) by {
                        if j < mid {
                            lemma_pair_lt(pair_views(v@)[j], pair_views(v@)[mid as int], pv);
                        }
                    }
                }
                lo = mid + 1;
            },
            Order::Greater => {
                proof {
                    lemma_pair_lt(pv, pair_views(v@)[mid as int], pv);
                    assert forall|j: int| mid <= j < v@.len() implies pair_lt(
                        pv,
                        #[trigger] pair_views(v@)[j],
                    ) by {
                        if j > mid {
                            lemma_pair_lt(pv, pair_views(v@)[mid as int], pair_views(v@)[j]);
                        }
                    }
                }
                hi = mid;
            },
        }
    }
    let ghost old_v = v@;
    let i = lo;
    v.insert(i, p);
    proof {
        let ov = pair_views(old_v);
        let nv = pair_views(v@);
        assert(nv =~= ov.subrange(0, i as int).push(pv) + ov.subrange(i as int, ov.len() as int));
        assert forall|x: int, y: int| 0 <= x < y < nv.len() implies pair_lt(
            #[trigger] nv[x],
            #[trigger] nv[y],
        ) by {
            if y < i {
            } else if x > i {
                assert(nv[x] == ov[x - 1] && nv[y] == ov[y - 1]);
            } else if x == i {
                assert(nv[y] == ov[y - 1]);
            } else if y == i {
                assert(nv[x] == ov[x]);
            } else {
                assert(nv[x] == ov[x] && nv[y] == ov[y - 1]);
                lemma_pair_lt(ov[x], pv, ov[y - 1]);
            }
        }
        assert(nv.to_set() =~= ov.to_set().insert(pv)) by {
            assert forall|q: PairV| nv.to_set().contains(q) implies ov.to_set().insert(q).contains(
                q,
            ) && ov.to_set().insert(pv).contains(q) by {
                let j = choose|j: int| 0 <= j < nv.len() && nv[j] == q;
                if j < i {
                    assert(ov[j] == q);
                } else if j > i {
                    assert(ov[j - 1] == q);
                }
            }
            assert forall|q: PairV| ov.to_set().insert(pv).contains(q) implies nv.to_set().contains(
                q,
            ) by {
                if q == pv {
                    assert(nv[i as int] == q);
                } else {
                    let j = choose|j: int| 0 <= j < ov.len() && ov[j] == q;
                    if j < i {
                        assert(nv[j] == q);
                    } else {
                        assert(nv[j + 1] == q);
                    }
                }
            }
        }
    }
}

/// Whether a canonical listing holds the pair `(a, b)`.
pub fn has_pair(v: &Vec<(String, String)>, a: &String, b: &String) -> (r: bool)
    requires
        pairs_sorted(pair_views(v@)),
    ensures
        r == pair_set(v@).contains((a@, b@)),
{
    let mut i: usize = 0;
    while i < v.len()
        invariant
            i <= v@.len(),
            forall|j: int| 0 <= j < i ==> pair_views(v@)[j] != (a@, b@),
        decreases v@.len() - i,
    {
        if compare_strings(&v[i].0, a) == Order::Equal && compare_strings(&v[i].1, b)
            == Order::Equal {
            proof {
                assert(pair_views(v@)[i as int] == (a@, b@));
            }
            return true;
        }
        i = i + 1;
    }
    false
}

/// The set of a one-longer prefix gains exactly the new element.
pub proof fn lemma_prefix_set<A>(s: Seq<A>, i: int)
    requires
        0 <= i < s.len(),
    ensures
        s.subrange(0, i + 1).to_set() == s.subrange(0, i).to_set().insert(s[i]),
{
    assert(s.subrange(0, i + 1) =~= s.subrange(0, i).push(s[i]));
    s.subrange(0, i).lemma_push_to_set_commute(s[i]);
}

/// The canonical listing of the pairs of `v`.
pub fn canonical(v: &Vec<(String, String)>) -> (r: Vec<(String, String)>)
    ensures
        lists(r@, pair_set(v@)),
{
    let mut r: Vec<(String, String)> = Vec::new();
    let mut i: usize = 0;
    while i < v.len()
        invariant
            i <= v@.len(),
            pairs_sorted(pair_views(r@)),
            pair_set(r@) == pair_views(v@).subrange(0, i as int).to_set(),
        decreases v@.len() - i,
    {
        insert_pair(&mut r, &v[i].0, &v[i].1);
        proof {
            lemma_prefix_set(pair_views(v@), i as int);
        }
        i = i + 1;
    }
    proof {
        assert(pair_views(v@).subrange(0, v@.len() as int) =~= pair_views(v@));
    }
    r
}

/// Every node a relation's pairs mention, as subject or object.
pub open spec fn nodes_spec(ps: Set<PairV>) -> Set<Seq<char>> {
    Set::new(|n: Seq<char>| exists|o: Seq<char>| ps.contains((n, o)) || ps.contains((o, n)))
}

/// Every node a relation's pairs mention (subjects and objects), sorted and
/// free of duplicates.
pub fn relation_nodes(pairs: &Vec<(String, String)>) -> (r: Vec<String>)
    ensures
        strings_sorted(string_views(r@)),
        string_views(r@).to_set() == nodes_spec(pair_set(pairs@)),
{
    let mut r: Vec<String> = Vec::new();
    let mut i: usize = 0;
    while i < pairs.len()
        invariant
            i <= pairs@.len(),
            strings_sorted(string_views(r@)),
            string_views(r@).to_set() == nodes_spec(pair_views(pairs@).subrange(0, i as int).to_set()),
        decreases pairs@.len() - i,
    {
        insert_string(&mut r, &pairs[i].0);
        insert_string(&mut r, &pairs[i].1);
        proof {
            let before = pair_views(pairs@).subrange(0, i as int).to_set();
            let p = pair_views(pairs@)[i as int];
            lemma_prefix_set(pair_views(pairs@), i as int);
            assert(nodes_spec(before.insert(p)) =~= nodes_spec(before).insert(p.0).insert(p.1)) by {
                assert forall|n: Seq<char>| nodes_spec(before).insert(p.0).insert(p.1).contains(
                    n,
                ) implies nodes_spec(before.insert(p)).contains(n) by {
                    if n == p.0 {
                        assert(before.insert(p).contains((n, p.1)));
                    } else if n == p.1 {
                        assert(before.insert(p).contains((p.0, n)));
                    } else {
                        let o = choose|o: Seq<char>| before.contains((n, o)) || before.contains((o, n));
                        assert(before.insert(p).contains((n, o)) || before.insert(p).contains((o, n)));
                    }
                }
            }
        }
        i = i + 1;
    }
    proof {
        assert(pair_views(pairs@).subrange(0, pairs@.len() as int) =~= pair_views(pairs@));
    }
    r
}

/// The symmetric closure: every pair and its reverse.
pub open spec fn symmetric_spec(ps: Set<PairV>) -> Set<PairV> {
    Set::new(|p: PairV| ps.contains(p) || ps.contains((p.1, p.0)))
}

/// Symmetric closure: add `(b, a)` for every `(a, b)`.
pub fn symmetric_closure(pairs: Vec<(String, String)>) -> (r: Vec<(String, String)>)
    ensures
        lists(r@, symmetric_spec(pair_set(pairs@))),
{
    let mut r: Vec<(String, String)> = Vec::new();
    let mut i: usize = 0;
    while i < pairs.len()
        invariant
            i <= pairs@.len(),
            pairs_sorted(pair_views(r@)),
            pair_set(r@) == symmetric_spec(pair_views(pairs@).subrange(0, i as int).to_set()),
        decreases pairs@.len() - i,
    {
        insert_pair(&mut r, &pairs[i].0, &pairs[i].1);
        insert_pair(&mut r, &pairs[i].1, &pairs[i].0);
        proof {
            let before = pair_views(pairs@).subrange(0, i as int).to_set();
            let p = pair_views(pairs@)[i as int];
            lemma_prefix_set(pair_views(pairs@), i as int);
            assert(symmetric_spec(before.insert(p)) =~= symmetric_spec(before).insert(p).insert(
                (p.1, p.0),
            ));
        }
        i = i + 1;
    }
    proof {
        assert(pair_views(pairs@).subrange(0, pairs@.len() as int) =~= pair_views(pairs@));
    }
    r
}

/// The reflexive closure: every pair, and `(x, x)` for every node.
pub open spec fn reflexive_spec(ps: Set<PairV>) -> Set<PairV> {
    Set::new(|p: PairV| ps.contains(p) || (p.0 == p.1 && nodes_spec(ps).contains(p.0)))
}

/// Reflexive closure: add `(x, x)` for every node the relation mentions.
pub fn reflexive_closure(pairs: Vec<(String, String)>) -> (r: Vec<(String, String)>)
    ensures
        lists(r@, reflexive_spec(pair_set(pairs@))),
{
    let nodes = relation_nodes(&pairs);
    let mut r = canonical(&pairs);
    let mut i: usize = 0;
    while i < nodes.len()
        invariant
            i <= nodes@.len(),
            string_views(nodes@).to_set() == nodes_spec(pair_set(pairs@)),
            pairs_sorted(pair_views(r@)),
            pair_set(r@) == pair_set(pairs@) + Set::new(
                |p: PairV| p.0 == p.1 && string_views(nodes@).subrange(0, i as int).to_set().contains(
                    p.0,
                ),
            ),
        decreases nodes@.len() - i,
    {
        insert_pair(&mut r, &nodes[i], &nodes[i]);
        proof {
            let n = nodes@[i as int]@;
            let sv = string_views(nodes@);
            assert(sv[i as int] == n);
            lemma_prefix_set(sv, i as int);
            assert(pair_set(r@) =~= pair_set(pairs@) + Set::new(
                |p: PairV| p.0 == p.1 && sv.subrange(0, i + 1).to_set().contains(p.0),
            ));
        }
        i = i + 1;
    }
    proof {
        assert(string_views(nodes@).subrange(0, nodes@.len() as int) =~= string_views(nodes@));
        assert(pair_set(r@) =~= reflexive_spec(pair_set(pairs@)));
    }
    r
}

// --- reachability -------------------------------------------------------------

/// `path` walks the relation: at least one step, each step a pair of `ps`.
pub open spec fn is_path(ps: Set<PairV>, path: Seq<Seq<char>>) -> bool {
    &&& path.len() >= 2
    &&& forall|i: int| 0 <= i < path.len() - 1 ==> ps.contains((#[trigger] path[i], path[i + 1]))
}

/// `a` reaches `c` in one or more steps of `ps`.
pub open spec fn reaches(ps: Set<PairV>, a: Seq<char>, c: Seq<char>) -> bool {
    exists|path: Seq<Seq<char>>| #[trigger] is_path(ps, path) && path[0] == a && path.last() == c
}

/// The transitive closure: every pair `(a, c)` with `a` reaching `c`.
pub open spec fn transitive_spec(ps: Set<PairV>) -> Set<PairV> {
    Set::new(|p: PairV| reaches(ps, p.0, p.1))
}

/// One step is a path.
pub proof fn lemma_step_reaches(ps: Set<PairV>, a: Seq<char>, b: Seq<char>)
    requires
        ps.contains((a, b)),
    ensures
        reaches(ps, a, b),
{
    let path = seq![a, b];
    assert(is_path(ps, path));
}

/// A path extends by one more step.
pub proof fn lemma_reach_extend(ps: Set<PairV>, a: Seq<char>, b: Seq<char>, c: Seq<char>)
    requires
        reaches(ps, a, b),
        ps.contains((b, c)),
    ensures
        reaches(ps, a, c),
{
    let path = choose|path: Seq<Seq<char>>| #[trigger] is_path(ps, path) && path[0] == a && path.last() == b;
    let p2 = path.push(c);
    assert forall|i: int| 0 <= i < p2.len() - 1 implies ps.contains((#[trigger] p2[i], p2[i + 1])) by {
        if i < path.len() - 1 {
            assert(p2[i] == path[i] && p2[i + 1] == path[i + 1]);
        } else {
            assert(p2[i] == b);
        }
    }
    assert(is_path(ps, p2));
}

/// Both ends of a path are nodes of the relation.
pub proof fn lemma_reach_nodes(ps: Set<PairV>, a: Seq<char>, c: Seq<char>)
    requires
        reaches(ps, a, c),
    ensures
        nodes_spec(ps).contains(a),
        nodes_spec(ps).contains(c),
{
    let path = choose|path: Seq<Seq<char>>| #[trigger] is_path(ps, path) && path[0] == a && path.last() == c;
    assert(ps.contains((path[0], path[1])));
    let k = path.len() - 2;
    assert(ps.contains((path[k], path[k + 1])));
}

/// A set holding every successor of `x`, and closed under taking successors,
/// holds everything `x` reaches.
pub proof fn lemma_closed_holds_reach(ps: Set<PairV>, c: Set<Seq<char>>, x: Seq<char>, y: Seq<char>)
    requires
        forall|b: Seq<char>| ps.contains((x, b)) ==> c.contains(b),
        forall|u: Seq<char>, b: Seq<char>| c.contains(u) && ps.contains((u, b)) ==> c.contains(b),
        reaches(ps, x, y),
    ensures
        c.contains(y),
{
    let path = choose|path: Seq<Seq<char>>| #[trigger] is_path(ps, path) && path[0] == x && path.last() == y;
    assert(ps.contains((path[0], path[1])));
    lemma_path_stays_in(ps, c, path, path.len() - 1);
}

proof fn lemma_path_stays_in(ps: Set<PairV>, c: Set<Seq<char>>, path: Seq<Seq<char>>, k: int)
    requires
        is_path(ps, path),
        1 <= k < path.len(),
        c.contains(path[1]),
        forall|u: Seq<char>, b: Seq<char>| c.contains(u) && ps.contains((u, b)) ==> c.contains(b),
    ensures
        c.contains(path[k]),
    decreases k,
{
    if k > 1 {
        lemma_path_stays_in(ps, c, path, k - 1);
        assert(ps.contains((path[k - 1], path[k])));
    }
}

/// How many entries are `false`.
pub open spec fn count_false(v: Seq<bool>) -> nat
    decreases v.len(),
{
    if v.len() == 0 {
        0
    } else {
        count_false(v.drop_last()) + (if v.last() {
            0nat
        } else {
            1nat
        })
    }
}

/// Turning entries from false to true never adds a `false`, and turning at
/// least one removes one.
pub proof fn lemma_count_false_mono(v: Seq<bool>, w: Seq<bool>)
    requires
        v.len() == w.len(),
        forall|j: int| 0 <= j < v.len() && v[j] ==> w[j],
    ensures
        count_false(w) <= count_false(v),
        (exists|j: int| 0 <= j < v.len() && w[j] && !v[j]) ==> count_false(w) < count_false(v),
    decreases v.len(),
{
    if v.len() > 0 {
        lemma_count_false_mono(v.drop_last(), w.drop_last());
        if exists|j: int| 0 <= j < v.len() && w[j] && !v[j] {
            let j = choose|j: int| 0 <= j < v.len() && w[j] && !v[j];
            if j < v.len() - 1 {
                assert(w.drop_last()[j] && !v.drop_last()[j]);
            }
        }
    }
}

/// The nodes marked in `visited`.
pub open spec fn marked(nodes: Seq<Seq<char>>, visited: Seq<bool>) -> Set<Seq<char>> {
    Set::new(|b: Seq<char>| exists|j: int| 0 <= j < nodes.len() && visited[j] && nodes[j] == b)
}

/// Mark every successor of `x`, pushing the newly marked ones on the stack.
fn expand(
    pairs: &Vec<(String, String)>,
    nodes: &Vec<String>,
    x: &String,
    visited: &mut Vec<bool>,
    stack: &mut Vec<usize>,
)
    requires
        strings_sorted(string_views(nodes@)),
        string_views(nodes@).to_set() == nodes_spec(pair_set(pairs@)),
        old(visited)@.len() == nodes@.len(),
    ensures
        final(visited)@.len() == nodes@.len(),
        forall|j: int| 0 <= j < nodes@.len() && old(visited)@[j] ==> final(visited)@[j],
        forall|b: Seq<char>|
            pair_set(pairs@).contains((x@, b)) ==> marked(string_views(nodes@), final(visited)@).contains(b),
        forall|j: int|
            0 <= j < nodes@.len() && final(visited)@[j] && !old(visited)@[j]
                ==> pair_set(pairs@).contains((x@, nodes@[j]@)),
        final(stack)@.len() >= old(stack)@.len(),
        final(stack)@.subrange(0, old(stack)@.len() as int) == old(stack)@,
        forall|k: int|
            old(stack)@.len() <= k < final(stack)@.len() ==> (#[trigger] final(stack)@[k]) < nodes@.len()
                && final(visited)@[final(stack)@[k] as int] && !old(visited)@[final(stack)@[k] as int],
        forall|j: int|
            0 <= j < nodes@.len() && final(visited)@[j] && !old(visited)@[j]
                ==> final(stack)@.subrange(old(stack)@.len() as int, final(stack)@.len() as int).contains(j as usize),
        final(stack)@.subrange(old(stack)@.len() as int, final(stack)@.len() as int).no_duplicates(),
{
    let ghost v0 = visited@;
    let ghost s0 = stack@;
    let ghost ps = pair_set(pairs@);
    let ghost sv = string_views(nodes@);
    let mut i: usize = 0;
    while i < pairs.len()
        invariant
            strings_sorted(sv),
            sv == string_views(nodes@),
            ps == pair_set(pairs@),
            sv.to_set() == nodes_spec(ps),
            i <= pairs@.len(),
            visited@.len() == nodes@.len(),
            v0.len() == nodes@.len(),
            forall|j: int| 0 <= j < nodes@.len() && v0[j] ==> visited@[j],
            forall|k: int| 0 <= k < i && pair_views(pairs@)[k].0 == x@ ==> marked(sv, visited@).contains(
                #[trigger] pair_views(pairs@)[k].1,
            ),
            forall|j: int|
                0 <= j < nodes@.len() && visited@[j] && !v0[j] ==> ps.contains((x@, nodes@[j]@)),
            stack@.len() >= s0.len(),
            stack@.subrange(0, s0.len() as int) == s0,
            forall|k: int|
                s0.len() <= k < stack@.len() ==> (#[trigger] stack@[k]) < nodes@.len()
                    && visited@[stack@[k] as int] && !v0[stack@[k] as int],
            forall|j: int|
                0 <= j < nodes@.len() && visited@[j] && !v0[j] ==> stack@.subrange(
                    s0.len() as int,
                    stack@.len() as int,
                ).contains(j as usize),
            stack@.subrange(s0.len() as int, stack@.len() as int).no_duplicates(),
        decreases pairs@.len() - i,
    {
        let ghost pv = pair_views(pairs@)[i as int];
        proof {
            assert(pv == (pairs@[i as int].0@, pairs@[i as int].1@));
        }
        if compare_strings(&pairs[i].0, x) == Order::Equal {
            proof {
                assert(ps.contains(pv));
                assert(nodes_spec(ps).contains(pv.1));
                assert(sv.to_set().contains(pv.1));
            }
            match search_string(nodes, &pairs[i].1) {
                Ok(j) => {
                    if !visited[j] {
                        let ghost st = stack@;
                        visited.set(j, true);
                        stack.push(j);
                        proof {
                            assert(stack@.subrange(0, s0.len() as int) =~= st.subrange(0, s0.len() as int));
                            let tail0 = st.subrange(s0.len() as int, st.len() as int);
                            let tail1 = stack@.subrange(s0.len() as int, stack@.len() as int);
                            assert(tail1 =~= tail0.push(j));
                            assert(!tail0.contains(j)) by {
                                if tail0.contains(j) {
                                    let k = choose|k: int| 0 <= k < tail0.len() && tail0[k] == j;
                                    assert(stack@[s0.len() + k] == j);
                                }
                            }
                            assert(tail1.no_duplicates()) by {
                                assert forall|a: int, b: int| 0 <= a < tail1.len() && 0 <= b < tail1.len() && a != b implies tail1[a] != tail1[b] by {
                                    if a < tail0.len() && b < tail0.len() {
                                    } else if a == tail0.len() {
                                        assert(tail1[b] == tail0[b]);
                                        assert(tail0.contains(tail0[b]));
                                    } else {
                                        assert(tail1[a] == tail0[a]);
                                        assert(tail0.contains(tail0[a]));
                                    }
                                }
                            }
                            assert(sv[j as int] == pv.1);
                            assert forall|jj: int|
                                0 <= jj < nodes@.len() && visited@[jj] && !v0[jj] implies tail1.contains(jj as usize) by {
                                if jj != j {
                                    assert(tail0.contains(jj as usize));
                                    let k = choose|k: int| 0 <= k < tail0.len() && tail0[k] == jj as usize;
                                    assert(tail1[k] == jj as usize);
                                } else {
                                    assert(tail1[tail1.len() - 1] == j);
                                }
                            }
                        }
                    }
                    proof {
                        assert(sv[j as int] == pv.1);
                        assert(marked(sv, visited@).contains(pv.1));
                    }
                },
                Err(_) => {
                    proof {
                        assert(string_views(nodes@).contains(pv.1));
                    }
                },
            }
        }
        proof {
            assert forall|k: int| 0 <= k < i + 1 && pair_views(pairs@)[k].0 == x@ implies marked(
                sv,
                visited@,
            ).contains(#[trigger] pair_views(pairs@)[k].1) by {
                if k < i {
                    let b = pair_views(pairs@)[k].1;
                    let jj = choose|jj: int| 0 <= jj < sv.len() && #[trigger] v0.len() == v0.len() && visited@[jj] && sv[jj] == b;
                }
            }
        }
        i = i + 1;
    }
    proof {
        assert forall|b: Seq<char>| ps.contains((x@, b)) implies marked(sv, visited@).contains(b) by {
            assert(pair_views(pairs@).contains((x@, b)));
            let k = choose|k: int| 0 <= k < pair_views(pairs@).len() && pair_views(pairs@)[k] == (x@, b);
            assert(pair_views(pairs@)[k].1 == b);
        }
    }
}

/// Marking more nodes only grows the marked set.
proof fn lemma_marked_grows(sv: Seq<Seq<char>>, v0: Seq<bool>, v1: Seq<bool>)
    requires
        v0.len() == sv.len(),
        v1.len() == sv.len(),
        forall|j: int| 0 <= j < sv.len() && v0[j] ==> v1[j],
    ensures
        forall|b: Seq<char>| #[trigger] marked(sv, v0).contains(b) ==> marked(sv, v1).contains(b),
{
    assert forall|b: Seq<char>| #[trigger] marked(sv, v0).contains(b) implies marked(sv, v1).contains(b) by {
        let j = choose|j: int| 0 <= j < sv.len() && v0[j] && sv[j] == b;
        assert(v1[j]);
    }
}

/// One round of the search (pop `u`, mark its successors) keeps the search
/// invariants and makes progress.
proof fn lemma_search_step(
    ps: Set<PairV>,
    sv: Seq<Seq<char>>,
    x: Seq<char>,
    v0: Seq<bool>,
    v1: Seq<bool>,
    st0: Seq<usize>,
    st1: Seq<usize>,
    st2: Seq<usize>,
    u: usize,
)
    requires
        sv.len() <= usize::MAX,
        v0.len() == sv.len(),
        v1.len() == sv.len(),
        u < sv.len(),
        st0 == st1.push(u),
        forall|j: int| 0 <= j < sv.len() && v0[j] ==> reaches(ps, x, #[trigger] sv[j]),
        forall|k: int| 0 <= k < st0.len() ==> (#[trigger] st0[k]) < sv.len() && v0[st0[k] as int],
        st0.no_duplicates(),
        forall|w: int|
            0 <= w < sv.len() && v0[w] && !st0.contains(w as usize) ==> forall|b: Seq<char>|
                ps.contains((sv[w], b)) ==> #[trigger] marked(sv, v0).contains(b),
        forall|b: Seq<char>| ps.contains((x, b)) ==> #[trigger] marked(sv, v0).contains(b),
        // what marking the successors of `u` did
        forall|j: int| 0 <= j < sv.len() && v0[j] ==> v1[j],
        forall|b: Seq<char>| ps.contains((sv[u as int], b)) ==> marked(sv, v1).contains(b),
        forall|j: int| 0 <= j < sv.len() && v1[j] && !v0[j] ==> ps.contains((sv[u as int], sv[j])),
        st2.len() >= st1.len(),
        st2.subrange(0, st1.len() as int) == st1,
        forall|k: int|
            st1.len() <= k < st2.len() ==> (#[trigger] st2[k]) < sv.len() && v1[st2[k] as int] && !v0[st2[k] as int],
        forall|j: int|
            0 <= j < sv.len() && v1[j] && !v0[j] ==> st2.subrange(st1.len() as int, st2.len() as int).contains(j as usize),
        st2.subrange(st1.len() as int, st2.len() as int).no_duplicates(),
    ensures
        forall|j: int| 0 <= j < sv.len() && v1[j] ==> reaches(ps, x, #[trigger] sv[j]),
        forall|k: int| 0 <= k < st2.len() ==> (#[trigger] st2[k]) < sv.len() && v1[st2[k] as int],
        st2.no_duplicates(),
        forall|w: int|
            0 <= w < sv.len() && v1[w] && !st2.contains(w as usize) ==> forall|b: Seq<char>|
                ps.contains((sv[w], b)) ==> #[trigger] marked(sv, v1).contains(b),
        forall|b: Seq<char>| ps.contains((x, b)) ==> #[trigger] marked(sv, v1).contains(b),
        count_false(v1) < count_false(v0) || (count_false(v1) == count_false(v0) && st2.len() < st0.len()),
{
    let tail = st2.subrange(st1.len() as int, st2.len() as int);
    assert(st2 =~= st1 + tail);
    lemma_marked_grows(sv, v0, v1);
    assert(!st1.contains(u)) by {
        if st1.contains(u) {
            let k = choose|k: int| 0 <= k < st1.len() && st1[k] == u;
            assert(st0[k] == st0[st0.len() - 1]);
        }
    }
    assert(v0[u as int]) by {
        assert(st0[st0.len() - 1] == u);
    }
    assert forall|j: int| 0 <= j < sv.len() && v1[j] implies reaches(ps, x, #[trigger] sv[j]) by {
        if !v0[j] {
            lemma_reach_extend(ps, x, sv[u as int], sv[j]);
        }
    }
    assert forall|k: int| 0 <= k < st2.len() implies (#[trigger] st2[k]) < sv.len() && v1[st2[k] as int] by {
        if k < st1.len() {
            assert(st0[k] == st1[k]);
        } else {
            assert(st2[k] == tail[k - st1.len()]);
        }
    }
    assert(st2.no_duplicates()) by {
        assert forall|a: int, b: int| 0 <= a < st2.len() && 0 <= b < st2.len() && a != b implies st2[a] != st2[b] by {
            if a < st1.len() && b < st1.len() {
                assert(st0[a] == st1[a] && st0[b] == st1[b]);
            } else if a >= st1.len() && b >= st1.len() {
                assert(st2[a] == tail[a - st1.len()] && st2[b] == tail[b - st1.len()]);
            } else if a < st1.len() {
                assert(st2[a] == st0[a]);
                assert(v0[st2[a] as int]);
            } else {
                assert(st2[b] == st0[b]);
                assert(v0[st2[b] as int]);
            }
        }
    }
    assert forall|w: int, b: Seq<char>|
        0 <= w < sv.len() && v1[w] && !st2.contains(w as usize) && ps.contains((#[trigger] sv[w], b)) implies #[trigger] marked(sv, v1).contains(b) by {
        if w == u {
        } else if !v0[w] {
            let k = choose|k: int| 0 <= k < tail.len() && tail[k] == w as usize;
            assert(st2[st1.len() + k] == w as usize);
            assert(st2.contains(w as usize));
        } else {
            assert(!st0.contains(w as usize)) by {
                if st0.contains(w as usize) {
                    let k = choose|k: int| 0 <= k < st0.len() && st0[k] == w as usize;
                    if k < st1.len() {
                        assert(st2[k] == st1[k]);
                        assert(st2.contains(w as usize));
                    } else {
                        assert(st0[k] == u);
                    }
                }
            }
            assert(marked(sv, v0).contains(b));
        }
    }
    assert forall|b: Seq<char>| ps.contains((x, b)) implies #[trigger] marked(sv, v1).contains(b) by {
        assert(marked(sv, v0).contains(b));
    }
    lemma_count_false_mono(v0, v1);
    if !(exists|j: int| 0 <= j < sv.len() && v1[j] && !v0[j]) {
        assert(v1 =~= v0);
        assert(tail.len() == 0) by {
            if tail.len() > 0 {
                assert(st2[st1.len() as int] == tail[0]);
            }
        }
    }
}

/// Each of `nodes` reached from `x` in one or more steps, as flags by position.
fn reach_from(pairs: &Vec<(String, String)>, nodes: &Vec<String>, x: &String) -> (v: Vec<bool>)
    requires
        strings_sorted(string_views(nodes@)),
        string_views(nodes@).to_set() == nodes_spec(pair_set(pairs@)),
    ensures
        v@.len() == nodes@.len(),
        forall|j: int|
            0 <= j < nodes@.len() ==> (v@[j] <==> reaches(pair_set(pairs@), x@, #[trigger] nodes@[j]@)),
{
    let ghost ps = pair_set(pairs@);
    let ghost sv = string_views(nodes@);
    let n = nodes.len();
    let mut visited: Vec<bool> = Vec::new();
    while visited.len() < n
        invariant
            visited@.len() <= n,
            forall|j: int| 0 <= j < visited@.len() ==> !visited@[j],
        decreases n - visited@.len(),
    {
        visited.push(false);
    }
    let mut stack: Vec<usize> = Vec::new();
    expand(pairs, nodes, x, &mut visited, &mut stack);
    proof {
        assert(stack@.subrange(0, 0) =~= Seq::<usize>::empty());
        assert(stack@.subrange(0, stack@.len() as int) =~= stack@);
        assert forall|j: int| 0 <= j < n && visited@[j] implies reaches(ps, x@, #[trigger] sv[j]) by {
            assert(sv[j] == nodes@[j]@);
            lemma_step_reaches(ps, x@, sv[j]);
        }
        assert forall|u: int| 0 <= u < n && visited@[u] implies stack@.contains(u as usize) by {}
    }
    while stack.len() > 0
        invariant
            strings_sorted(sv),
            sv == string_views(nodes@),
            ps == pair_set(pairs@),
            sv.to_set() == nodes_spec(ps),
            n == nodes@.len(),
            visited@.len() == n,
            forall|j: int| 0 <= j < n && visited@[j] ==> reaches(ps, x@, #[trigger] sv[j]),
            forall|k: int|
                0 <= k < stack@.len() ==> (#[trigger] stack@[k]) < n && visited@[stack@[k] as int],
            stack@.no_duplicates(),
            forall|u: int|
                0 <= u < n && visited@[u] && !stack@.contains(u as usize) ==> forall|b: Seq<char>|
                    ps.contains((sv[u], b)) ==> #[trigger] marked(sv, visited@).contains(b),
            forall|b: Seq<char>| ps.contains((x@, b)) ==> #[trigger] marked(sv, visited@).contains(b),
        decreases count_false(visited@), stack@.len(),
    {
        let ghost v0 = visited@;
        let ghost st0 = stack@;
        let u = stack.pop().unwrap();
        let ghost st1 = stack@;
        proof {
            assert(st0 =~= st1.push(u));
        }
        expand(pairs, nodes, &nodes[u], &mut visited, &mut stack);
        proof {
            assert(sv[u as int] == nodes@[u as int]@);
            lemma_search_step(ps, sv, x@, v0, visited@, st0, st1, stack@, u);
        }
    }
    proof {
        let m = marked(sv, visited@);
        assert forall|u: Seq<char>, b: Seq<char>| m.contains(u) && ps.contains((u, b)) implies m.contains(b) by {
            let j = choose|j: int| 0 <= j < sv.len() && visited@[j] && sv[j] == u;
            assert(!stack@.contains(j as usize));
        }
        assert forall|j: int| 0 <= j < nodes@.len() implies (visited@[j] <==> reaches(ps, x@, #[trigger] nodes@[j]@)) by {
            assert(sv[j] == nodes@[j]@);
            if reaches(ps, x@, sv[j]) {
                lemma_closed_holds_reach(ps, m, x@, sv[j]);
                let jj = choose|jj: int| 0 <= jj < sv.len() && visited@[jj] && sv[jj] == sv[j];
                if jj < j {
                    assert(seq_lt(sv[jj], sv[j]));
                    lemma_seq_lt_irrefl(sv[j]);
                } else if jj > j {
                    assert(seq_lt(sv[j], sv[jj]));
                    lemma_seq_lt_irrefl(sv[j]);
                }
            }
        }
    }
    visited
}

/// The transitive closure of a relation's pairs: `(a, c)` for every `a` that
/// reaches `c` in one or more steps. A self-pair `(x, x)` in the result marks
/// a cycle.
pub fn transitive_closure(pairs: Vec<(String, String)>) -> (r: Vec<(String, String)>)
    ensures
        lists(r@, transitive_spec(pair_set(pairs@))),
{
    let ghost ps = pair_set(pairs@);
    let nodes = relation_nodes(&pairs);
    let ghost sv = string_views(nodes@);
    let n = nodes.len();
    let mut r: Vec<(String, String)> = Vec::new();
    let mut s: usize = 0;
    while s < n
        invariant
            n == nodes@.len(),
            sv == string_views(nodes@),
            ps == pair_set(pairs@),
            strings_sorted(sv),
            sv.to_set() == nodes_spec(ps),
            s <= n,
            pairs_sorted(pair_views(r@)),
            pair_set(r@) == Set::new(
                |p: PairV| reaches(ps, p.0, p.1) && exists|i: int| 0 <= i < s && sv[i] == p.0,
            ),
        decreases n - s,
    {
        let vis = reach_from(&pairs, &nodes, &nodes[s]);
        let ghost before = pair_set(r@);
        let mut j: usize = 0;
        while j < n
            invariant
                n == nodes@.len(),
                sv == string_views(nodes@),
                ps == pair_set(pairs@),
                s < n,
                j <= n,
                vis@.len() == n,
                forall|k: int| 0 <= k < n ==> (vis@[k] <==> reaches(ps, nodes@[s as int]@, #[trigger] nodes@[k]@)),
                pairs_sorted(pair_views(r@)),
                pair_set(r@) == before + Set::new(
                    |p: PairV| p.0 == sv[s as int] && reaches(ps, p.0, p.1) && exists|k: int| 0 <= k < j && sv[k] == p.1,
                ),
            decreases n - j,
        {
            if vis[j] {
                insert_pair(&mut r, &nodes[s], &nodes[j]);
            }
            proof {
                assert(sv[s as int] == nodes@[s as int]@ && sv[j as int] == nodes@[j as int]@);
                assert(pair_set(r@) =~= before + Set::new(
                    |p: PairV| p.0 == sv[s as int] && reaches(ps, p.0, p.1) && exists|k: int| 0 <= k < j + 1 && sv[k] == p.1,
                )) by {
                    assert forall|p: PairV| p.0 == sv[s as int] && reaches(ps, p.0, p.1) && (exists|k: int| 0 <= k < j + 1 && sv[k] == p.1)
                        implies #[trigger] pair_set(r@).contains(p) by {
                        let k = choose|k: int| 0 <= k < j + 1 && sv[k] == p.1;
                        if k == j {
                            assert(vis@[j as int]);
                        }
                    }
                }
            }
            j = j + 1;
        }
        proof {
            assert(pair_set(r@) =~= Set::new(
                |p: PairV| reaches(ps, p.0, p.1) && exists|i: int| 0 <= i < s + 1 && sv[i] == p.0,
            )) by {
                assert forall|p: PairV| reaches(ps, p.0, p.1) && (exists|i: int| 0 <= i < s + 1 && sv[i] == p.0)
                    implies #[trigger] pair_set(r@).contains(p) by {
                    let i = choose|i: int| 0 <= i < s + 1 && sv[i] == p.0;
                    if i == s {
                        lemma_reach_nodes(ps, p.0, p.1);
                        assert(sv.to_set().contains(p.1));
                        assert(sv.contains(p.1));
                        let k = choose|k: int| 0 <= k < sv.len() && sv[k] == p.1;
                    }
                }
            }
        }
        s = s + 1;
    }
    proof {
        assert(pair_set(r@) =~= transitive_spec(ps)) by {
            assert forall|p: PairV| #[trigger] transitive_spec(ps).contains(p) implies pair_set(r@).contains(p) by {
                lemma_reach_nodes(ps, p.0, p.1);
                assert(sv.to_set().contains(p.0));
                assert(sv.contains(p.0));
                let i = choose|i: int| 0 <= i < sv.len() && sv[i] == p.0;
            }
        }
    }
    r
}

/// The strongly-connected grouping: `(a, b)` where each reaches the other,
/// plus `(x, x)` for every node.
pub open spec fn scc_spec(ps: Set<PairV>) -> Set<PairV> {
    Set::new(
        |p: PairV|
            (reaches(ps, p.0, p.1) && reaches(ps, p.1, p.0)) || (p.0 == p.1 && nodes_spec(ps).contains(
                p.0,
            )),
    )
}

/// Strongly-connected grouping: keep `(a, b)` where `a` and `b` reach each
/// other, plus each node to itself. Isolates directed cycles.
pub fn scc_closure(pairs: Vec<(String, String)>) -> (r: Vec<(String, String)>)
    ensures
        lists(r@, scc_spec(pair_set(pairs@))),
{
    let ghost ps = pair_set(pairs@);
    let nodes = relation_nodes(&pairs);
    let reach = transitive_closure(pairs);
    let ghost rs = pair_set(reach@);
    let mut r: Vec<(String, String)> = Vec::new();
    let mut i: usize = 0;
    while i < reach.len()
        invariant
            rs == pair_set(reach@),
            rs == transitive_spec(ps),
            pairs_sorted(pair_views(reach@)),
            i <= reach@.len(),
            pairs_sorted(pair_views(r@)),
            pair_set(r@) == Set::new(
                |p: PairV| pair_views(reach@).subrange(0, i as int).to_set().contains(p) && rs.contains((p.1, p.0)),
            ),
        decreases reach@.len() - i,
    {
        let back = has_pair(&reach, &reach[i].1, &reach[i].0);
        if back {
            insert_pair(&mut r, &reach[i].0, &reach[i].1);
        }
        proof {
            let pv = pair_views(reach@);
            assert(pv[i as int] == (reach@[i as int].0@, reach@[i as int].1@));
            lemma_prefix_set(pv, i as int);
            assert(pair_set(r@) =~= Set::new(
                |p: PairV| pv.subrange(0, i + 1).to_set().contains(p) && rs.contains((p.1, p.0)),
            ));
        }
        i = i + 1;
    }
    proof {
        assert(pair_views(reach@).subrange(0, reach@.len() as int) =~= pair_views(reach@));
        assert(pair_set(r@) =~= Set::new(|p: PairV| rs.contains(p) && rs.contains((p.1, p.0))));
    }
    let mut k: usize = 0;
    while k < nodes.len()
        invariant
            rs == transitive_spec(ps),
            string_views(nodes@).to_set() == nodes_spec(ps),
            k <= nodes@.len(),
            pairs_sorted(pair_views(r@)),
            pair_set(r@) == Set::new(
                |p: PairV| (rs.contains(p) && rs.contains((p.1, p.0))) || (p.0 == p.1
                    && string_views(nodes@).subrange(0, k as int).to_set().contains(p.0)),
            ),
        decreases nodes@.len() - k,
    {
        insert_pair(&mut r, &nodes[k], &nodes[k]);
        proof {
            let sv = string_views(nodes@);
            assert(sv[k as int] == nodes@[k as int]@);
            lemma_prefix_set(sv, k as int);
            assert(pair_set(r@) =~= Set::new(
                |p: PairV| (rs.contains(p) && rs.contains((p.1, p.0))) || (p.0 == p.1
                    && sv.subrange(0, k + 1).to_set().contains(p.0)),
            ));
        }
        k = k + 1;
    }
    proof {
        assert(string_views(nodes@).subrange(0, nodes@.len() as int) =~= string_views(nodes@));
        assert(pair_views(reach@).subrange(0, reach@.len() as int) =~= pair_views(reach@));
        assert(pair_set(r@) =~= scc_spec(ps));
    }
    r
}

/// The equivalence closure: reflexive, symmetric and transitive, so nodes
/// connected ignoring direction form one class.
pub open spec fn equivalence_spec(ps: Set<PairV>) -> Set<PairV> {
    reflexive_spec(transitive_spec(symmetric_spec(ps)))
}

/// Equivalence closure: reflexive + symmetric + transitive. Cycles are
/// expected here, so none is rejected.
pub fn equivalence_closure(pairs: Vec<(String, String)>) -> (r: Vec<(String, String)>)
    ensures
        lists(r@, equivalence_spec(pair_set(pairs@))),
{
    reflexive_closure(transitive_closure(symmetric_closure(pairs)))
}

} // verus!

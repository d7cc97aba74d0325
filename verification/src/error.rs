//! Compile errors, and the edit-distance "did you mean" suggestions that the
//! unknown-name errors carry.
use vstd::prelude::*;
use crate::diag::Diagnostics;
use crate::text::{chars_of, push_char, push_str};

verus! {

/// Anything that can go wrong while compiling (and resolving imports).
#[derive(Debug, PartialEq, Eq)]
pub enum CompileError {
    /// A source failed to parse; carries every syntax diagnostic (the source
    /// label is already in the diagnostics header).
    Parse(Diagnostics),
    /// A name was reused with a different body within one source.
    PremiseRedefinition {
        /// The clashing premise or rule name.
        name: String,
    },
    /// A source did not declare its `DOMAIN`.
    MissingDomain {
        /// The source label.
        file: String,
    },
    /// A source declared `DOMAIN` more than once.
    DuplicateDomain {
        /// The source label.
        file: String,
    },
    /// An atom used a `domain.` prefix that is neither the file's own domain
    /// nor imported in that file.
    UnknownDomain {
        /// The unresolved prefix.
        domain: String,
    },
    /// Two imports bound one local domain name to different domains.
    DomainAliasClash {
        /// The clashing local name.
        alias: String,
    },
    /// An `IMPORT` target could not be loaded.
    ImportNotFound(String),
    /// Imports form a cycle.
    CircularImport(String),
    /// A `RULE` used `OR` in its `THEN`.
    RuleDisjunctiveConsequent {
        /// The offending rule.
        name: String,
    },
    /// A reference used a value outside the closed set a `ONEOF` declared.
    UnknownValue(Box<UnknownValue>),
    /// A `FOR EACH … IN` or `EXISTS … IN` named an undeclared set.
    UnknownSet {
        /// The source of the quantifier.
        file: String,
        /// 1-based line of the set name.
        line: u32,
        /// The undeclared set name.
        set: String,
        /// ` — did you mean \`x\`?`, or empty.
        suggestion: String,
    },
    /// `CLOSE … TRANSITIVE` found a node that reaches itself.
    CyclicRelation {
        /// The source of the `CLOSE`.
        file: String,
        /// 1-based line of the `CLOSE`.
        line: u32,
        /// The relation being closed.
        relation: String,
        /// A node on the cycle.
        node: String,
    },
    /// A bare proposition was used but no `VAR` declares it.
    UndeclaredPort {
        /// The source of the offending reference.
        file: String,
        /// 1-based line of the reference.
        line: u32,
        /// The undeclared name.
        name: String,
        /// ` — did you mean \`x\`?`, or empty.
        suggestion: String,
    },
    /// An external value named a port no `VAR` declares.
    UnknownPort {
        /// The key as written.
        name: String,
        /// ` — did you mean \`x\`?`, or empty.
        suggestion: String,
    },
    /// An external value named a target declared in more than one domain.
    AmbiguousPort {
        /// The ambiguous name.
        name: String,
        /// The domains that declare it, comma-joined (sorted).
        domains: String,
    },
    /// A multi-word external value named an atom no statement uses.
    UnknownExternalAtom {
        /// The atom reference as written.
        name: String,
    },
    /// Two sources supplied different values for one target.
    PortConflict {
        /// The target (qualified atom label).
        name: String,
        /// The first binding's value.
        a_value: bool,
        /// The first binding's origin.
        a_origin: String,
        /// The second binding's value.
        b_value: bool,
        /// The second binding's origin.
        b_origin: String,
    },
    /// A data file held a statement other than `PROVIDE` (or `DOMAIN`).
    DataFileStatement {
        /// The data file.
        file: String,
        /// 1-based line of the statement.
        line: u32,
    },
}

/// Details of a closed-world violation.
#[derive(Debug, PartialEq, Eq)]
pub struct UnknownValue {
    /// The source of the offending reference.
    pub file: String,
    /// 1-based line of the reference.
    pub line: u32,
    /// The variable's subject.
    pub subject: String,
    /// The variable's predicate.
    pub predicate: String,
    /// The out-of-set value used.
    pub value: String,
    /// The declared values, sorted and comma-joined.
    pub declared: String,
    /// ` — did you mean \`x\`?`, or empty.
    pub suggestion: String,
}

// --- edit distance -----------------------------------------------------------

/// The smallest of three numbers.
pub open spec fn min3(x: nat, y: nat, z: nat) -> nat {
    if x <= y && x <= z {
        x
    } else if y <= z {
        y
    } else {
        z
    }
}

/// The Levenshtein edit distance: the fewest single-character insertions,
/// deletions and substitutions turning `a` into `b`.
pub open spec fn lev(a: Seq<char>, b: Seq<char>) -> nat
    decreases a.len() + b.len(),
{
    if a.len() == 0 {
        b.len()
    } else if b.len() == 0 {
        a.len()
    } else {
        min3(
            lev(a.drop_last(), b) + 1,
            lev(a, b.drop_last()) + 1,
            lev(a.drop_last(), b.drop_last()) + (if a.last() == b.last() {
                0nat
            } else {
                1nat
            }),
        )
    }
}

/// The distance never exceeds the longer length.
pub proof fn lemma_lev_bound(a: Seq<char>, b: Seq<char>)
    ensures
        lev(a, b) <= (if a.len() >= b.len() {
            a.len()
        } else {
            b.len()
        }),
    decreases a.len() + b.len(),
{
    if a.len() > 0 && b.len() > 0 {
        lemma_lev_bound(a.drop_last(), b.drop_last());
    }
}

/// The distance is zero exactly between equal strings.
pub proof fn lemma_lev_zero_iff_equal(a: Seq<char>, b: Seq<char>)
    ensures
        lev(a, b) == 0 <==> a == b,
    decreases a.len() + b.len(),
{
    if a.len() > 0 && b.len() > 0 {
        lemma_lev_zero_iff_equal(a.drop_last(), b.drop_last());
        if a == b {
            assert(a.drop_last() == b.drop_last());
        }
        if lev(a, b) == 0 {
            assert(a.drop_last() == b.drop_last());
            assert(a =~= a.drop_last().push(a.last()));
            assert(b =~= b.drop_last().push(b.last()));
        }
    } else if a.len() == 0 && b.len() > 0 {
        assert(a != b);
    } else if a.len() > 0 {
        assert(a != b);
    } else {
        assert(a =~= b);
    }
}

/// The distance is symmetric.
pub proof fn lemma_lev_symmetric(a: Seq<char>, b: Seq<char>)
    ensures
        lev(a, b) == lev(b, a),
    decreases a.len() + b.len(),
{
    if a.len() > 0 && b.len() > 0 {
        lemma_lev_symmetric(a.drop_last(), b);
        lemma_lev_symmetric(a, b.drop_last());
        lemma_lev_symmetric(a.drop_last(), b.drop_last());
    }
}

/// Levenshtein edit distance over characters (a rolling two-row table).
pub fn levenshtein(a: &[char], b: &[char]) -> (d: usize)
    ensures
        d == lev(a@, b@),
{
    let n = b.len();
    let mut prev: Vec<usize> = Vec::new();
    prev.push(0);
    let mut j: usize = 0;
    while j < n
        invariant
            n == b@.len(),
            j <= n,
            prev@.len() == j + 1,
            forall|k: int| 0 <= k <= j ==> prev@[k] == k,
        decreases n - j,
    {
        prev.push(j + 1);
        j = j + 1;
    }
    proof {
        assert forall|k: int| 0 <= k <= n implies prev@[k] == lev(
            a@.subrange(0, 0),
            #[trigger] b@.subrange(0, k),
        ) by {}
    }
    let mut i: usize = 0;
    while i < a.len()
        invariant
            n == b@.len(),
            i <= a@.len(),
            prev@.len() == n + 1,
            forall|k: int|
                0 <= k <= n ==> prev@[k] == lev(a@.subrange(0, i as int), #[trigger] b@.subrange(0, k)),
        decreases a@.len() - i,
    {
        let mut cur: Vec<usize> = Vec::new();
        cur.push(i + 1);
        proof {
            assert(lev(a@.subrange(0, i + 1), b@.subrange(0, 0)) == i + 1);
        }
        let mut j: usize = 0;
        while j < n
            invariant
                n == b@.len(),
                i < a@.len(),
                j <= n,
                prev@.len() == n + 1,
                cur@.len() == j + 1,
                forall|k: int|
                    0 <= k <= n ==> prev@[k] == lev(a@.subrange(0, i as int), #[trigger] b@.subrange(0, k)),
                forall|k: int|
                    0 <= k <= j ==> cur@[k] == lev(a@.subrange(0, i + 1), #[trigger] b@.subrange(0, k)),
            decreases n - j,
        {
            let ghost x = a@.subrange(0, i + 1);
            let ghost y = b@.subrange(0, j + 1);
            proof {
                assert(x.drop_last() =~= a@.subrange(0, i as int));
                assert(y.drop_last() =~= b@.subrange(0, j as int));
                assert(x.last() == a@[i as int]);
                assert(y.last() == b@[j as int]);
                lemma_lev_bound(a@.subrange(0, i as int), b@.subrange(0, j as int));
            }
            let cost: usize = if a[i] == b[j] {
                0
            } else {
                1
            };
            let up = prev[j + 1];
            let left = cur[j];
            let diag = prev[j];
            let m = if up <= left {
                up
            } else {
                left
            };
            let v = if m < diag + cost {
                m + 1
            } else {
                diag + cost
            };
            cur.push(v);
            j = j + 1;
        }
        prev = cur;
        i = i + 1;
    }
    proof {
        assert(a@.subrange(0, a@.len() as int) =~= a@);
        assert(b@.subrange(0, n as int) =~= b@);
    }
    prev[n]
}

// --- "did you mean" ---------------------------------------------------------

/// How far a guess may be from `word`: a third of its length, so one- and
/// two-character values get no guess at all.
pub open spec fn budget(word: Seq<char>) -> nat {
    word.len() / 3
}

/// Candidate `i` is the suggestion for `word`: within the budget, no candidate
/// is closer, and no earlier candidate is as close.
pub open spec fn nearest_at(word: Seq<char>, cands: Seq<Seq<char>>, i: int) -> bool {
    &&& 0 <= i < cands.len()
    &&& budget(word) > 0
    &&& lev(word, cands[i]) <= budget(word)
    &&& forall|j: int| 0 <= j < cands.len() ==> lev(word, #[trigger] cands[j]) >= lev(word, cands[i])
    &&& forall|j: int| 0 <= j < i ==> lev(word, #[trigger] cands[j]) > lev(word, cands[i])
}

/// No candidate is close enough to `word` to suggest.
pub open spec fn nothing_near(word: Seq<char>, cands: Seq<Seq<char>>) -> bool {
    budget(word) == 0 || forall|j: int| 0 <= j < cands.len() ==> lev(word, #[trigger] cands[j])
        > budget(word)
}

/// The characters of each candidate.
pub open spec fn cand_views(cands: Seq<&str>) -> Seq<Seq<char>> {
    cands.map_values(|c: &str| c@)
}

/// The position of the closest candidate to `word` within the budget, the
/// first one on a tie; `None` when nothing is close enough.
pub fn nearest_index(word: &str, candidates: &[&str]) -> (r: Option<usize>)
    ensures
        match r {
            Some(i) => nearest_at(word@, cand_views(candidates@), i as int),
            None => nothing_near(word@, cand_views(candidates@)),
        },
{
    let w = chars_of(word);
    let budget = w.len() / 3;
    if budget == 0 {
        return None;
    }
    let ghost cs = cand_views(candidates@);
    let mut best: Option<(usize, usize)> = None;
    let mut i: usize = 0;
    while i < candidates.len()
        invariant
            cs == cand_views(candidates@),
            w@ == word@,
            budget == word@.len() / 3,
            budget > 0,
            i <= candidates@.len(),
            match best {
                Some((bi, bd)) => {
                    &&& bi < i
                    &&& bd == lev(word@, cs[bi as int])
                    &&& bd <= budget
                    &&& forall|j: int| 0 <= j < i ==> (lev(word@, #[trigger] cs[j]) >= bd || lev(
                        word@,
                        cs[j],
                    ) > budget)
                    &&& forall|j: int| 0 <= j < bi ==> (lev(word@, #[trigger] cs[j]) > bd)
                },
                None => forall|j: int| 0 <= j < i ==> lev(word@, #[trigger] cs[j]) > budget,
            },
        decreases candidates@.len() - i,
    {
        let c = chars_of(candidates[i]);
        let d = levenshtein(w.as_slice(), c.as_slice());
        proof {
            assert(cs[i as int] == candidates@[i as int]@);
        }
        if d <= budget {
            match best {
                Some((bi, bd)) => {
                    if d < bd {
                        best = Some((i, d));
                    }
                },
                None => {
                    best = Some((i, d));
                },
            }
        }
        i = i + 1;
    }
    match best {
        Some((bi, bd)) => Some(bi),
        None => None,
    }
}

/// The closest candidate to `word` within the length budget (`len / 3`
/// characters, not floored at one), the first on a tie; `None` when nothing is
/// close enough to be a useful guess.
pub fn nearest<'a>(word: &str, candidates: &[&'a str]) -> (r: Option<&'a str>)
    ensures
        match r {
            Some(c) => exists|i: int|
                nearest_at(word@, cand_views(candidates@), i) && #[trigger] candidates@[i] == c,
            None => nothing_near(word@, cand_views(candidates@)),
        },
{
    match nearest_index(word, candidates) {
        Some(i) => Some(candidates[i]),
        None => None,
    }
}

/// The suggestion suffix: `" — did you mean `x`?"` for the nearest candidate,
/// or empty when none is close enough.
pub open spec fn suggestion_spec(word: Seq<char>, cands: Seq<Seq<char>>, i: Option<int>) -> Seq<
    char,
> {
    match i {
        Some(i) => " — did you mean `"@ + cands[i] + "`?"@,
        None => Seq::empty(),
    }
}

/// `" — did you mean `x`?"` for the nearest candidate to `word`, or empty.
pub fn did_you_mean(word: &str, candidates: &[&str]) -> (r: String)
    ensures
        (exists|i: int|
            nearest_at(word@, cand_views(candidates@), i) && r@ == suggestion_spec(
                word@,
                cand_views(candidates@),
                Some(i),
            )) || (nothing_near(word@, cand_views(candidates@)) && r@.len() == 0),
{
    let mut s = String::new();
    match nearest_index(word, candidates) {
        Some(i) => {
            push_str(&mut s, " — did you mean `");
            push_str(&mut s, candidates[i]);
            push_str(&mut s, "`?");
            proof {
                assert(cand_views(candidates@)[i as int] == candidates@[i as int]@);
                assert(s@ =~= suggestion_spec(word@, cand_views(candidates@), Some(i as int)));
            }
        },
        None => {},
    }
    s
}

} // verus!

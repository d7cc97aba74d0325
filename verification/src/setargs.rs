//! External port values written on a command line: whitespace-separated
//! `name:true|false` tokens.
use vstd::prelude::*;
use crate::compiler::{split_words, words};
use crate::ir::PortBinding;
use crate::text::{string_from_chars, string_of};

verus! {

/// Why a `--set` token was refused.
pub enum SetTokenError {
    /// The token has no `:`.
    MissingColon {
        /// The token as written.
        token: String,
    },
    /// The text after the first `:` is neither `true` nor `false`.
    BadValue {
        /// The token as written.
        token: String,
    },
}

/// Every token of the given strings, each string split at whitespace.
pub open spec fn set_tokens(values: Seq<String>) -> Seq<Seq<char>>
    decreases values.len(),
{
    if values.len() == 0 {
        Seq::empty()
    } else {
        set_tokens(values.drop_last()) + words(values.last()@)
    }
}

/// `k` is the position of the first `:` of `t`.
pub open spec fn first_colon(t: Seq<char>, k: int) -> bool {
    &&& 0 <= k < t.len()
    &&& t[k] == ':'
    &&& forall|j: int| 0 <= j < k ==> t[j] != ':'
}

/// What a token says: `Ok((name, value))`, or `Err(no_colon)` (`true` when
/// the token has no `:`, `false` when its value is neither `true` nor `false`).
pub open spec fn token_meaning(t: Seq<char>) -> Result<(Seq<char>, bool), bool> {
    if exists|k: int| first_colon(t, k) {
        let k = choose|k: int| first_colon(t, k);
        let v = t.subrange(k + 1, t.len() as int);
        if v == "true"@ {
            Ok((t.take(k), true))
        } else if v == "false"@ {
            Ok((t.take(k), false))
        } else {
            Err(false)
        }
    } else {
        Err(true)
    }
}

/// Token `i` is the first one refused.
pub open spec fn first_refused(ts: Seq<Seq<char>>, i: int) -> bool {
    &&& 0 <= i < ts.len()
    &&& forall|j: int| 0 <= j < i ==> (#[trigger] token_meaning(ts[j])) is Ok
    &&& token_meaning(ts[i]) is Err
}

/// The first `:` of a token is unique.
proof fn lemma_first_colon_unique(t: Seq<char>, k: int, q: int)
    requires
        first_colon(t, k),
        first_colon(t, q),
    ensures
        k == q,
{
    if k < q {
        assert(t[k] != ':');
    } else if q < k {
        assert(t[q] != ':');
    }
}

fn is_word(cs: &Vec<char>, w: &str) -> (r: bool)
    ensures
        r == (cs@ == w@),
{
    let ws = crate::text::chars_of(w);
    crate::text::chars_eq(cs.as_slice(), ws.as_slice())
}

/// Parse one token.
fn parse_token(t: &Vec<char>) -> (r: Result<(String, bool), SetTokenError>)
    ensures
        match token_meaning(t@) {
            Ok((name, value)) => r matches Ok((n, v)) && n@ == name && v == value,
            Err(no_colon) => match r {
                Err(SetTokenError::MissingColon { token }) => no_colon && token@ == t@,
                Err(SetTokenError::BadValue { token }) => !no_colon && token@ == t@,
                Ok(_) => false,
            },
        },
{
    let mut k: usize = 0;
    while k < t.len() && t[k] != ':'
        invariant
            k <= t@.len(),
            forall|j: int| 0 <= j < k ==> t@[j] != ':',
        decreases t@.len() - k,
    {
        k = k + 1;
    }
    if k == t.len() {
        proof {
            assert forall|q: int| !first_colon(t@, q) by {
                if first_colon(t@, q) {
                    assert(t@[q] != ':');
                }
            }
        }
        return Err(SetTokenError::MissingColon { token: string_from_chars(t.as_slice()) });
    }
    proof {
        assert(first_colon(t@, k as int));
        let q = choose|q: int| first_colon(t@, q);
        lemma_first_colon_unique(t@, k as int, q);
    }
    let mut name: Vec<char> = Vec::new();
    let mut value: Vec<char> = Vec::new();
    let mut j: usize = 0;
    while j < t.len()
        invariant
            k < t@.len(),
            j <= t@.len(),
            name@ == t@.take(if j < k { j as int } else { k as int }),
            value@ == t@.subrange(k + 1, if j > k + 1 { j as int } else { k + 1 }),
        decreases t@.len() - j,
    {
        if j < k {
            name.push(t[j]);
            proof {
                assert(name@ =~= t@.take(j + 1));
            }
        } else if j > k {
            value.push(t[j]);
            proof {
                assert(value@ =~= t@.subrange(k + 1, j + 1));
            }
        }
        j = j + 1;
    }
    if is_word(&value, "true") {
        Ok((string_from_chars(name.as_slice()), true))
    } else if is_word(&value, "false") {
        Ok((string_from_chars(name.as_slice()), false))
    } else {
        Err(SetTokenError::BadValue { token: string_from_chars(t.as_slice()) })
    }
}

/// The bindings `--set` strings give, in order, each with origin `CLI`: each
/// string is split at whitespace into `name:true|false` tokens. The first
/// token without a `:`, or whose value is neither `true` nor `false`, is
/// refused.
pub fn parse_set(values: &Vec<String>) -> (r: Result<Vec<(String, PortBinding)>, SetTokenError>)
    ensures
        match r {
            Ok(v) => {
                &&& v@.len() == set_tokens(values@).len()
                &&& forall|i: int|
                    0 <= i < v@.len() ==> token_meaning(set_tokens(values@)[i]) == Ok::<(Seq<char>, bool), bool>(
                        ((#[trigger] v@[i]).0@, v@[i].1.value),
                    ) && v@[i].1.origin@ == "CLI"@
            },
            Err(e) => exists|i: int| {
                &&& #[trigger] first_refused(set_tokens(values@), i)
                &&& match e {
                    SetTokenError::MissingColon { token } => token@ == set_tokens(values@)[i]
                        && token_meaning(set_tokens(values@)[i]) == Err::<(Seq<char>, bool), bool>(true),
                    SetTokenError::BadValue { token } => token@ == set_tokens(values@)[i]
                        && token_meaning(set_tokens(values@)[i]) == Err::<(Seq<char>, bool), bool>(false),
                }
            },
        },
{
    let mut out: Vec<(String, PortBinding)> = Vec::new();
    let mut c: usize = 0;
    while c < values.len()
        invariant
            c <= values@.len(),
            out@.len() == set_tokens(values@.take(c as int)).len(),
            forall|i: int|
                0 <= i < out@.len() ==> token_meaning(set_tokens(values@.take(c as int))[i]) == Ok::<
                    (Seq<char>, bool),
                    bool,
                >(((#[trigger] out@[i]).0@, out@[i].1.value)) && out@[i].1.origin@ == "CLI"@,
        decreases values@.len() - c,
    {
        let ghost before = set_tokens(values@.take(c as int));
        proof {
            assert(values@.take(c + 1).drop_last() =~= values@.take(c as int));
            assert(values@.take(c + 1).last() == values@[c as int]);
        }
        let ws = split_words(values[c].as_str());
        let mut k: usize = 0;
        while k < ws.len()
            invariant
                c < values@.len(),
                k <= ws@.len(),
                crate::compiler::word_views(ws@) == words(values@[c as int]@),
                before == set_tokens(values@.take(c as int)),
                set_tokens(values@.take(c + 1)) == before + words(values@[c as int]@),
                out@.len() == before.len() + k,
                forall|i: int|
                    0 <= i < out@.len() ==> token_meaning((before + words(values@[c as int]@))[i]) == Ok::<
                        (Seq<char>, bool),
                        bool,
                    >(((#[trigger] out@[i]).0@, out@[i].1.value)) && out@[i].1.origin@ == "CLI"@,
            decreases ws@.len() - k,
        {
            let ghost all = before + words(values@[c as int]@);
            proof {
                assert(all[before.len() + k] == ws@[k as int]@);
            }
            match parse_token(&ws[k]) {
                Ok((name, value)) => {
                    out.push((name, PortBinding { value, origin: string_of("CLI") }));
                },
                Err(e) => {
                    proof {
                        let i = before.len() + k;
                        lemma_set_tokens_prefix(values@, c + 1);
                        assert forall|j: int| 0 <= j < i implies (#[trigger] token_meaning(set_tokens(values@)[j])) is Ok by {
                            assert(set_tokens(values@)[j] == all[j]);
                            assert(token_meaning(all[j]) == Ok::<(Seq<char>, bool), bool>((out@[j].0@, out@[j].1.value)));
                        }
                        assert(set_tokens(values@)[i] == all[i]);
                        assert(first_refused(set_tokens(values@), i));
                    }
                    return Err(e);
                },
            }
            k = k + 1;
        }
        proof {
            assert(before + words(values@[c as int]@) == set_tokens(values@.take(c + 1)));
        }
        c = c + 1;
    }
    proof {
        assert(values@.take(values@.len() as int) =~= values@);
    }
    Ok(out)
}

/// The tokens of a prefix of the strings start the tokens of all of them.
proof fn lemma_set_tokens_prefix(values: Seq<String>, c: int)
    requires
        0 <= c <= values.len(),
    ensures
        set_tokens(values.take(c)).len() <= set_tokens(values).len(),
        forall|i: int| 0 <= i < set_tokens(values.take(c)).len() ==> #[trigger] set_tokens(values)[i] == set_tokens(values.take(c))[i],
    decreases values.len() - c,
{
    if c < values.len() {
        lemma_set_tokens_prefix(values, c + 1);
        let t = values.take(c + 1);
        assert(t.drop_last() =~= values.take(c));
    } else {
        assert(values.take(c) =~= values);
    }
}

} // verus!

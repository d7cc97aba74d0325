//! Low-level scanning over a source held as characters: positions, line/column
//! lookup, spaces, line endings, comments, keywords and identifiers. Every
//! scanner takes a position and returns the position after what it matched.
use vstd::prelude::*;
use crate::ast::{ident_char, ident_start, ident_word, valid_ident, Located};
use crate::syntax::{
    bool_ok, comment_ok, eol_ok, eol_parts, ident_ok, kw_ok, line_end_ok, noise_chain, noise_line_ok, noise_ok,
    noise_parts, noise_step, space1_ok, spaces_ok, lemma_spaces_unique, lemma_comment_unique,
};
use crate::keywords::{is_keyword, kw_chars, kw_spec, lookup_keyword, Kw};
use crate::text::{
    ascii_letter, chars_of, char_alphabetic, char_alphanumeric, is_alphabetic, is_alphanumeric, string_from_chars,
};

verus! {

/// `e` is where the line starting at `s` ends: the first line feed at or
/// after `s`, or the end of the text.
pub open spec fn line_end_at(t: Seq<char>, s: int, e: int) -> bool {
    &&& s <= e <= t.len()
    &&& forall|i: int| s <= i < e ==> t[i] != '\n'
    &&& (e == t.len() || t[e] == '\n')
}

/// The number of line feeds in `t` before position `p`.
pub open spec fn nl_count(t: Seq<char>, p: int) -> nat
    decreases p,
{
    if p <= 0 {
        0
    } else {
        nl_count(t, p - 1) + if t[p - 1] == '\n' {
            1nat
        } else {
            0nat
        }
    }
}

/// Where the line holding position `p` begins: just after the last line feed
/// before `p`, or 0.
pub open spec fn line_start(t: Seq<char>, p: int) -> int
    decreases p,
{
    if p <= 0 {
        0
    } else if t[p - 1] == '\n' {
        p
    } else {
        line_start(t, p - 1)
    }
}

/// The 1-based line of position `p`: one more than the line feeds before it.
pub open spec fn line_of(t: Seq<char>, p: int) -> int {
    nl_count(t, p) as int + 1
}

/// The 1-based column (in characters) of position `p` on its line.
pub open spec fn col_of(t: Seq<char>, p: int) -> int {
    p - line_start(t, p) + 1
}

/// Line feeds before `a` are no more than those before `b`, for `a <= b`.
pub proof fn lemma_nl_mono(t: Seq<char>, a: int, b: int)
    requires
        0 <= a <= b,
    ensures
        nl_count(t, a) <= nl_count(t, b),
    decreases b - a,
{
    if a < b {
        lemma_nl_mono(t, a, b - 1);
    }
}

/// Where as many line feeds come before `b` as before `a`, none lies between.
pub proof fn lemma_nl_flat(t: Seq<char>, a: int, b: int, q: int)
    requires
        0 <= a <= q < b,
        nl_count(t, a) == nl_count(t, b),
    ensures
        t[q] != '\n',
    decreases b - a,
{
    lemma_nl_mono(t, a, b - 1);
    if q < b - 1 {
        lemma_nl_mono(t, q + 1, b - 1);
        lemma_nl_mono(t, a, q + 1);
        lemma_nl_flat(t, a, b - 1, q);
    }
}

/// A line that begins at `a` (at 0 or after a line feed) and holds no line
/// feed before `p` is the line of `p`.
pub proof fn lemma_line_start(t: Seq<char>, a: int, p: int)
    requires
        0 <= a <= p,
        a == 0 || t[a - 1] == '\n',
        forall|q: int| a <= q < p ==> t[q] != '\n',
    ensures
        line_start(t, p) == a,
    decreases p - a,
{
    if p > a {
        lemma_line_start(t, a, p - 1);
    }
}

/// A line without one trailing carriage return.
pub open spec fn strip_cr(x: Seq<char>) -> Seq<char> {
    if x.len() > 0 && x.last() == '\r' {
        x.drop_last()
    } else {
        x
    }
}

/// A source as characters plus the start position of every line.
pub struct Src {
    /// The source characters.
    pub text: Vec<char>,
    /// `starts[k]` is the position where line `k + 1` begins.
    pub starts: Vec<usize>,
}

impl Src {
    /// The structural invariant: line starts begin at 0, increase strictly, and
    /// each later one follows a line feed.
    pub open spec fn wf(&self) -> bool {
        &&& self.text@.len() < usize::MAX
        &&& self.starts@.len() >= 1
        &&& self.starts@[0] == 0
        &&& forall|k: int|
            0 <= k < self.starts@.len() ==> #[trigger] self.starts@[k] <= self.text@.len()
        &&& forall|j: int, k: int|
            0 <= j < k < self.starts@.len() ==> self.starts@[j] < self.starts@[k]
        &&& forall|k: int|
            1 <= k < self.starts@.len() ==> self.text@[#[trigger] self.starts@[k] - 1] == '\n'
        &&& forall|k: int| 0 <= k < self.starts@.len() ==> nl_count(self.text@, #[trigger] self.starts@[k] as int) == k
        &&& nl_count(self.text@, self.text@.len() as int) == self.starts@.len() - 1
    }

    /// The number of characters.
    pub open spec fn len(&self) -> nat {
        self.text@.len()
    }

    /// Build the scanning view of a source.
    pub fn new(src: &str) -> (r: Src)
        requires
            src@.len() < usize::MAX,
        ensures
            r.wf(),
            r.text@ == src@,
    {
        let text = chars_of(src);
        let mut starts: Vec<usize> = Vec::new();
        starts.push(0);
        let mut i: usize = 0;
        while i < text.len()
            invariant
                text@.len() < usize::MAX,
                i <= text@.len(),
                starts@.len() >= 1,
                starts@[0] == 0,
                forall|k: int| 0 <= k < starts@.len() ==> #[trigger] starts@[k] <= i,
                forall|j: int, k: int|
                    0 <= j < k < starts@.len() ==> starts@[j] < starts@[k],
                forall|k: int|
                    1 <= k < starts@.len() ==> text@[#[trigger] starts@[k] - 1] == '\n',
                forall|k: int| 0 <= k < starts@.len() ==> nl_count(text@, #[trigger] starts@[k] as int) == k,
                nl_count(text@, i as int) == starts@.len() - 1,
            decreases text@.len() - i,
        {
            let ghost s0 = starts@;
            if text[i] == '\n' {
                starts.push(i + 1);
                proof {
                    assert forall|k: int| 0 <= k < starts@.len() implies nl_count(text@, #[trigger] starts@[k] as int) == k by {
                        if k < s0.len() {
                            assert(starts@[k] == s0[k]);
                        }
                    }
                }
            }
            i = i + 1;
        }
        Src { text, starts }
    }

    /// The character at `i`, if any.
    pub fn at(&self, i: usize) -> (r: Option<char>)
        ensures
            i < self.len() ==> r == Some(self.text@[i as int]),
            i >= self.len() ==> r is None,
    {
        if i < self.text.len() {
            Some(self.text[i])
        } else {
            None
        }
    }

    /// The 1-based line and column (in characters) of position `pos`.
    pub fn locate(&self, pos: usize) -> (r: (usize, usize))
        requires
            self.wf(),
            pos <= self.len(),
        ensures
            r.0 >= 1,
            r.1 >= 1,
            r.0 <= self.starts@.len(),
            self.starts@[r.0 - 1] <= pos,
            r.1 == pos - self.starts@[r.0 - 1] + 1,
            r.0 == self.starts@.len() || pos < self.starts@[r.0 as int],
            r.0 == line_of(self.text@, pos as int),
            r.1 == col_of(self.text@, pos as int),
    {
        // Binary search for the last line start at or before `pos`.
        let mut lo: usize = 0;
        let mut hi: usize = self.starts.len();
        while lo + 1 < hi
            invariant
                self.wf(),
                pos <= self.len(),
                lo < hi <= self.starts@.len(),
                self.starts@[lo as int] <= pos,
                hi == self.starts@.len() || pos < self.starts@[hi as int],
            decreases hi - lo,
        {
            let mid = lo + (hi - lo) / 2;
            if self.starts[mid] <= pos {
                lo = mid;
            } else {
                hi = mid;
            }
        }
        proof {
            let t = self.text@;
            let a = self.starts@[lo as int] as int;
            let b: int = if lo + 1 == self.starts@.len() {
                t.len() as int
            } else {
                self.starts@[lo + 1] - 1
            };
            if lo + 1 < self.starts@.len() {
                assert(t[self.starts@[lo + 1] - 1] == '\n');
                assert(nl_count(t, self.starts@[lo + 1] as int) == lo + 1);
                assert(nl_count(t, b + 1) == nl_count(t, b) + 1);
            }
            assert(nl_count(t, a) == lo);
            assert(nl_count(t, b) == lo);
            lemma_nl_mono(t, a, pos as int);
            lemma_nl_mono(t, pos as int, b);
            assert forall|q: int| a <= q < pos implies t[q] != '\n' by {
                lemma_nl_flat(t, a, b, q);
            }
            if lo > 0 {
                assert(t[self.starts@[lo as int] - 1] == '\n');
            }
            lemma_line_start(t, a, pos as int);
        }
        (lo + 1, pos - self.starts[lo] + 1)
    }

    /// The text of line `line` (1-based), without its line ending (a trailing
    /// `\r` before the `\n` is dropped, as `str::lines` does). Empty past the end.
    pub fn line_text(&self, line: usize) -> (r: Vec<char>)
        requires
            self.wf(),
        ensures
            (line == 0 || line > self.starts@.len()) ==> r@ == Seq::<char>::empty(),
            1 <= line <= self.starts@.len() ==> exists|e: int|
                #[trigger] line_end_at(self.text@, self.starts@[line - 1] as int, e) && r@ == strip_cr(
                    self.text@.subrange(self.starts@[line - 1] as int, e),
                ),
    {
        let mut out: Vec<char> = Vec::new();
        if line == 0 || line > self.starts.len() {
            return out;
        }
        let start = self.starts[line - 1];
        let mut i = start;
        while i < self.text.len() && self.text[i] != '\n'
            invariant
                self.wf(),
                1 <= line <= self.starts@.len(),
                start == self.starts@[line - 1],
                start <= i <= self.text@.len(),
                forall|j: int| start <= j < i ==> self.text@[j] != '\n',
                out@ == self.text@.subrange(start as int, i as int),
            decreases self.text@.len() - i,
        {
            out.push(self.text[i]);
            proof {
                assert(out@ =~= self.text@.subrange(start as int, i + 1));
            }
            i = i + 1;
        }
        proof {
            assert(line_end_at(self.text@, start as int, i as int));
        }
        if out.len() > 0 && out[out.len() - 1] == '\r' {
            out.pop();
        }
        out
    }

    /// A located value at position `pos`.
    pub fn located<T>(&self, data: T, pos: usize) -> (r: Located<T>)
        requires
            self.wf(),
            pos <= self.len(),
        ensures
            r.data == data,
            r.line >= 1,
            r.col >= 1,
            r.line == line_of(self.text@, pos as int),
            r.col == col_of(self.text@, pos as int),
    {
        let (line, col) = self.locate(pos);
        Located { data, line, col }
    }

    /// The characters between `a` and `b` as a `String`.
    pub fn slice(&self, a: usize, b: usize) -> (r: String)
        requires
            a <= b <= self.len(),
        ensures
            r@ == self.text@.subrange(a as int, b as int),
    {
        let mut v: Vec<char> = Vec::new();
        let mut i = a;
        while i < b
            invariant
                a <= i <= b <= self.text@.len(),
                v@ == self.text@.subrange(a as int, i as int),
            decreases b - i,
        {
            v.push(self.text[i]);
            i = i + 1;
            proof {
                assert(v@ =~= self.text@.subrange(a as int, i as int));
            }
        }
        string_from_chars(v.as_slice())
    }
}

/// A word read from before `e` stops at `e`: the end, or a character an
/// identifier cannot continue with.
pub open spec fn word_stop(t: Seq<char>, e: int) -> bool {
    e == t.len() || (0 <= e < t.len() && !ident_char(t[e]))
}

/// An inline space: a blank or a tab (never a line ending).
pub open spec fn is_space(c: char) -> bool {
    c == ' ' || c == '\t'
}

/// Skip inline spaces; returns the first position that is not one.
pub fn skip_spaces(src: &Src, pos: usize) -> (r: usize)
    requires
        src.wf(),
        pos <= src.len(),
    ensures
        pos <= r <= src.len(),
        forall|i: int| pos <= i < r ==> is_space(#[trigger] src.text@[i]),
        r == src.len() || !is_space(src.text@[r as int]),
        spaces_ok(src.text@, pos as int, r as int),
{
    let mut i = pos;
    while i < src.text.len() && (src.text[i] == ' ' || src.text[i] == '\t')
        invariant
            pos <= i <= src.text@.len(),
            forall|j: int| pos <= j < i ==> is_space(#[trigger] src.text@[j]),
        decreases src.text@.len() - i,
    {
        i = i + 1;
    }
    i
}

/// At least one inline space.
pub fn space1(src: &Src, pos: usize) -> (r: Option<usize>)
    requires
        src.wf(),
        pos <= src.len(),
    ensures
        match r {
            Some(e) => pos < e <= src.len() && space1_ok(src.text@, pos as int, e as int),
            None => forall|e: int| !#[trigger] space1_ok(src.text@, pos as int, e),
        },
{
    let e = skip_spaces(src, pos);
    proof {
        assert forall|f: int| #[trigger] space1_ok(src.text@, pos as int, f) implies f == e by {
            lemma_spaces_unique(src.text@, pos as int, f, e as int);
        }
    }
    if e > pos {
        Some(e)
    } else {
        None
    }
}

/// Whether the source holds exactly `word` at `pos`.
pub open spec fn holds_at(text: Seq<char>, pos: int, word: Seq<char>) -> bool {
    pos + word.len() <= text.len() && text.subrange(pos, pos + word.len()) == word
}

/// Match the characters `w` at `pos`.
pub fn tag_chars(src: &Src, pos: usize, w: &[char]) -> (r: Option<usize>)
    requires
        src.wf(),
        pos <= src.len(),
    ensures
        match r {
            Some(e) => e == pos + w@.len() && holds_at(src.text@, pos as int, w@),
            None => !holds_at(src.text@, pos as int, w@),
        },
{
    if w.len() > src.text.len() - pos {
        return None;
    }
    let mut i: usize = 0;
    while i < w.len()
        invariant
            src.wf(),
            pos + w@.len() <= src.text@.len(),
            i <= w@.len(),
            forall|j: int| 0 <= j < i ==> src.text@[pos + j] == w@[j],
        decreases w@.len() - i,
    {
        if src.text[pos + i] != w[i] {
            proof {
                assert(src.text@.subrange(pos as int, pos + w@.len())[i as int] != w@[i as int]);
            }
            return None;
        }
        i = i + 1;
    }
    proof {
        assert(src.text@.subrange(pos as int, pos + w@.len()) =~= w@);
    }
    Some(pos + w.len())
}

/// Match the keyword `k` at `pos` (a prefix match, like a literal tag).
pub fn tag(src: &Src, pos: usize, k: Kw) -> (r: Option<usize>)
    requires
        src.wf(),
        pos <= src.len(),
    ensures
        match r {
            Some(e) => e == pos + kw_spec(k).len() && holds_at(src.text@, pos as int, kw_spec(k))
                && e <= src.len() && kw_ok(src.text@, pos as int, k, e as int),
            None => !holds_at(src.text@, pos as int, kw_spec(k)),
        },
{
    let w = kw_chars(k);
    tag_chars(src, pos, w.as_slice())
}

/// Match the single character `c` at `pos`.
pub fn tag_char(src: &Src, pos: usize, c: char) -> (r: Option<usize>)
    requires
        src.wf(),
        pos <= src.len(),
    ensures
        match r {
            Some(e) => e == pos + 1 && pos < src.len() && src.text@[pos as int] == c,
            None => pos >= src.len() || src.text@[pos as int] != c,
        },
{
    if pos < src.text.len() && src.text[pos] == c {
        Some(pos + 1)
    } else {
        None
    }
}

/// A line ending: `\n` or `\r\n`.
pub fn line_ending(src: &Src, pos: usize) -> (r: Option<usize>)
    requires
        src.wf(),
        pos <= src.len(),
    ensures
        match r {
            Some(e) => pos < e <= src.len() && line_end_ok(src.text@, pos as int, e as int),
            None => forall|e: int| !#[trigger] line_end_ok(src.text@, pos as int, e),
        },
{
    match src.at(pos) {
        Some(c) => {
            if c == '\n' {
                Some(pos + 1)
            } else if c == '\r' {
                match src.at(pos + 1) {
                    Some(d) => if d == '\n' {
                        Some(pos + 2)
                    } else {
                        None
                    },
                    None => None,
                }
            } else {
                None
            }
        },
        None => None,
    }
}

/// Skip a `// ...` comment (up to, not including, the line ending) if one
/// starts at `pos`.
pub fn skip_comment(src: &Src, pos: usize) -> (r: usize)
    requires
        src.wf(),
        pos <= src.len(),
    ensures
        pos <= r <= src.len(),
        comment_ok(src.text@, pos as int, r as int),
{
    if pos + 1 < src.text.len() && src.text[pos] == '/' && src.text[pos + 1] == '/' {
        let mut i = pos + 2;
        while i < src.text.len() && src.text[i] != '\n' && src.text[i] != '\r'
            invariant
                pos + 2 <= i <= src.text@.len(),
                forall|j: int| pos + 2 <= j < i ==> #[trigger] src.text@[j] != '\n' && src.text@[j] != '\r',
            decreases src.text@.len() - i,
        {
            i = i + 1;
        }
        i
    } else {
        pos
    }
}

/// End of a statement line: trailing spaces, an optional trailing comment, then
/// a line ending or the end of the source.
pub fn eol(src: &Src, pos: usize) -> (r: Option<usize>)
    requires
        src.wf(),
        pos <= src.len(),
    ensures
        match r {
            Some(e) => pos <= e <= src.len() && eol_ok(src.text@, pos as int, e as int),
            None => forall|f: int| !#[trigger] eol_ok(src.text@, pos as int, f),
        },
{
    let p1 = skip_spaces(src, pos);
    let p = skip_comment(src, p1);
    let r = if p == src.text.len() {
        Some(p)
    } else {
        line_ending(src, p)
    };
    proof {
        match r {
            Some(e) => {
                assert(eol_parts(src.text@, pos as int, e as int, seq![p1 as int, p as int]));
            },
            None => {
                assert forall|f: int| !#[trigger] eol_ok(src.text@, pos as int, f) by {
                    if eol_ok(src.text@, pos as int, f) {
                        let w = choose|w: Seq<int>| #[trigger] eol_parts(src.text@, pos as int, f, w);
                        lemma_spaces_unique(src.text@, pos as int, w[0], p1 as int);
                        lemma_comment_unique(src.text@, p1 as int, w[1], p as int);
                        assert(line_end_ok(src.text@, p as int, f));
                    }
                }
            },
        }
    }
    r
}

/// A blank or comment-only line, including its line ending.
pub fn noise_line(src: &Src, pos: usize) -> (r: Option<usize>)
    requires
        src.wf(),
        pos <= src.len(),
    ensures
        match r {
            Some(e) => pos < e <= src.len() && noise_line_ok(src.text@, pos as int, e as int),
            None => forall|f: int| !#[trigger] noise_line_ok(src.text@, pos as int, f),
        },
{
    let p1 = skip_spaces(src, pos);
    let p = skip_comment(src, p1);
    let r = line_ending(src, p);
    proof {
        match r {
            Some(e) => {
                assert(noise_parts(src.text@, pos as int, e as int, seq![p1 as int, p as int]));
            },
            None => {
                assert forall|f: int| !#[trigger] noise_line_ok(src.text@, pos as int, f) by {
                    if noise_line_ok(src.text@, pos as int, f) {
                        let w = choose|w: Seq<int>| #[trigger] noise_parts(src.text@, pos as int, f, w);
                        lemma_spaces_unique(src.text@, pos as int, w[0], p1 as int);
                        lemma_comment_unique(src.text@, p1 as int, w[1], p as int);
                        assert(line_end_ok(src.text@, p as int, f));
                    }
                }
            },
        }
    }
    r
}

/// Skip any number of blank / comment lines.
pub fn skip_noise(src: &Src, pos: usize) -> (r: usize)
    requires
        src.wf(),
        pos <= src.len(),
    ensures
        pos <= r <= src.len(),
        noise_ok(src.text@, pos as int, r as int),
{
    let mut p = pos;
    let ghost mut ps: Seq<int> = seq![pos as int];
    loop
        invariant
            src.wf(),
            pos <= p <= src.len(),
            ps.len() >= 1,
            ps[0] == pos,
            ps.last() == p,
            forall|i: int| 0 <= i < ps.len() - 1 ==> #[trigger] noise_step(src.text@, ps, i),
        decreases src.len() - p,
    {
        match noise_line(src, p) {
            Some(e) => {
                proof {
                    let old_ps = ps;
                    ps = ps.push(e as int);
                    assert forall|i: int| 0 <= i < ps.len() - 1 implies #[trigger] noise_step(src.text@, ps, i) by {
                        if i < old_ps.len() - 1 {
                            assert(noise_step(src.text@, old_ps, i));
                        }
                    }
                }
                p = e;
            },
            None => {
                proof {
                    assert(noise_chain(src.text@, ps, pos as int, p as int));
                }
                return p;
            },
        }
    }
}

/// The end of the identifier-shaped word starting at `pos` (`pos` itself when
/// none starts there): a letter, then letters, digits or `_`.
pub fn word_end(src: &Src, pos: usize) -> (r: usize)
    requires
        src.wf(),
        pos <= src.len(),
    ensures
        pos <= r <= src.len(),
        r > pos ==> ident_word(src.text@.subrange(pos as int, r as int)),
        r > pos ==> (r == src.len() || !ident_char(src.text@[r as int])),
        r == pos ==> (pos == src.len() || !ident_start(src.text@[pos as int])),
{
    if pos >= src.text.len() || !is_alphabetic(src.text[pos]) {
        return pos;
    }
    let mut i = pos + 1;
    while i < src.text.len() && (is_alphanumeric(src.text[i]) || src.text[i] == '_')
        invariant
            pos < i <= src.text@.len(),
            ident_start(src.text@[pos as int]),
            forall|j: int| pos < j < i ==> ident_char(#[trigger] src.text@[j]),
        decreases src.text@.len() - i,
    {
        i = i + 1;
    }
    proof {
        let w = src.text@.subrange(pos as int, i as int);
        assert forall|j: int| 1 <= j < w.len() implies ident_char(#[trigger] w[j]) by {
            assert(w[j] == src.text@[pos + j]);
        }
    }
    i
}

/// How a sub-parser failed: a recoverable `Error` (an enclosing alternative may
/// try something else) or a committed `Failure` with a precise message.
#[derive(Debug)]
pub enum PErr {
    /// Recoverable, at this position.
    Error(usize),
    /// Committed, at this position, with this message.
    Failure(usize, String),
}

/// The result of a sub-parser: the value and the position after it.
pub type PRes<T> = Result<(T, usize), PErr>;

/// A committed failure at `at` with message `msg`.
pub open spec fn is_failure<T>(r: PRes<T>, at: usize, msg: Seq<char>) -> bool {
    match r {
        Err(PErr::Failure(p, m)) => p == at && m@ == msg,
        _ => false,
    }
}

/// Turn a recoverable `Error` into a committed `Failure` at `at` with `msg`; a
/// `Failure` (more specific) and a success pass through.
pub fn promote<T>(r: PRes<T>, at: usize, msg: &str) -> (out: PRes<T>)
    ensures
        match r {
            Ok(v) => out == Ok::<(T, usize), PErr>(v),
            Err(PErr::Failure(p, m)) => out is Err && out->Err_0 == PErr::Failure(p, m),
            Err(PErr::Error(_)) => is_failure(out, at, msg@),
        },
{
    match r {
        Err(PErr::Error(_)) => Err(PErr::Failure(at, crate::text::string_of(msg))),
        other => other,
    }
}

/// A committed failure at `at` with `msg`.
pub fn fail_at<T>(at: usize, msg: &str) -> (out: PRes<T>)
    ensures
        is_failure(out, at, msg@),
{
    Err(PErr::Failure(at, crate::text::string_of(msg)))
}

/// An identifier that is not a reserved keyword; a recoverable `Error` at `pos`
/// otherwise.
pub fn identifier(src: &Src, pos: usize) -> (r: PRes<Located<String>>)
    requires
        src.wf(),
        pos <= src.len(),
    ensures
        match r {
            Ok((id, e)) => {
                &&& ident_ok(src.text@, pos as int, e as int, id.data@)
                &&& pos < e <= src.len()
                &&& id.data@ == src.text@.subrange(pos as int, e as int)
                &&& valid_ident(id.data@)
                &&& id.line >= 1 && id.col >= 1
                &&& crate::syntax::placed(src.text@, id, pos as int)
                &&& (e == src.len() || !ident_char(src.text@[e as int]))
            },
            Err(er) => er == PErr::Error(pos) && forall|e: int, s: Seq<char>| !#[trigger] ident_ok(src.text@, pos as int, e, s),
        },
{
    let e = word_end(src, pos);
    if e == pos {
        proof {
            assert forall|f: int, s: Seq<char>| !#[trigger] ident_ok(src.text@, pos as int, f, s) by {
                if ident_ok(src.text@, pos as int, f, s) {
                    assert(s[0] == src.text@[pos as int]);
                }
            }
        }
        return Err(PErr::Error(pos));
    }
    let w = src.slice(pos, e);
    let cs = chars_of(w.as_str());
    if lookup_keyword(cs.as_slice()).is_some() {
        proof {
            let word = src.text@.subrange(pos as int, e as int);
            assert(is_keyword(word));
            assert forall|f: int, s: Seq<char>| !#[trigger] ident_ok(src.text@, pos as int, f, s) by {
                if ident_ok(src.text@, pos as int, f, s) {
                    if f < e {
                        assert(word[f - pos] == src.text@[f]);
                    } else if f > e {
                        assert(s[e - pos] == src.text@[e as int]);
                    }
                    assert(s =~= word);
                }
            }
        }
        return Err(PErr::Error(pos));
    }
    Ok((src.located(w, pos), e))
}

/// The raw identifier-shaped word at `pos` (reserved words included).
pub fn raw_word(src: &Src, pos: usize) -> (r: Option<(Vec<char>, usize)>)
    requires
        src.wf(),
        pos <= src.len(),
    ensures
        match r {
            Some((w, e)) => {
                &&& pos < e <= src.len()
                &&& w@ == src.text@.subrange(pos as int, e as int)
                &&& ident_word(w@)
                &&& (e == src.len() || !ident_char(src.text@[e as int]))
            },
            None => pos == src.len() || !ident_start(src.text@[pos as int]),
        },
{
    let e = word_end(src, pos);
    if e == pos {
        return None;
    }
    let mut v: Vec<char> = Vec::new();
    let mut i = pos;
    while i < e
        invariant
            pos <= i <= e <= src.text@.len(),
            v@ == src.text@.subrange(pos as int, i as int),
        decreases e - i,
    {
        v.push(src.text[i]);
        i = i + 1;
        proof {
            assert(v@ =~= src.text@.subrange(pos as int, i as int));
        }
    }
    Some((v, e))
}

/// A boolean value word, `true` or `false` (not reserved; only read as a
/// boolean in value position).
pub fn bool_lit(src: &Src, pos: usize) -> (r: PRes<bool>)
    requires
        src.wf(),
        pos <= src.len(),
    ensures
        match r {
            Ok((b, e)) => pos < e <= src.len() && bool_ok(src.text@, pos as int, e as int, b) && src.text@.subrange(pos as int, e as int) == (
                if b {
                    seq!['t', 'r', 'u', 'e']
                } else {
                    seq!['f', 'a', 'l', 's', 'e']
                }),
            Err(er) => er == PErr::Error(pos),
        },
        forall|b: bool, e: int| #[trigger] bool_ok(src.text@, pos as int, e, b) && word_stop(src.text@, e) ==> r == Ok::<(bool, usize), PErr>((b, e as usize)),
{
    proof {
        assert forall|b: bool, e: int| #[trigger] bool_ok(src.text@, pos as int, e, b) implies forall|j: int|
            pos <= j < e ==> ascii_letter(#[trigger] src.text@[j]) by {
            assert forall|j: int| pos <= j < e implies ascii_letter(#[trigger] src.text@[j]) by {
                let w = src.text@.subrange(pos as int, e);
                assert(w[j - pos] == src.text@[j]);
                let k = j - pos;
                if b {
                    let lit = seq!['t', 'r', 'u', 'e'];
                    assert(w == lit);
                    if k == 0 {
                        assert(w[k] == 't');
                    } else if k == 1 {
                        assert(w[k] == 'r');
                    } else if k == 2 {
                        assert(w[k] == 'u');
                    } else {
                        assert(w.len() == 4);
                        assert(k == 3);
                        assert(w[k] == 'e');
                    }
                } else {
                    let lit = seq!['f', 'a', 'l', 's', 'e'];
                    assert(w == lit);
                    if k == 0 {
                        assert(w[k] == 'f');
                    } else if k == 1 {
                        assert(w[k] == 'a');
                    } else if k == 2 {
                        assert(w[k] == 'l');
                    } else if k == 3 {
                        assert(w[k] == 's');
                    } else {
                        assert(w.len() == 5);
                        assert(k == 4);
                        assert(w[k] == 'e');
                    }
                }
            }
        }
    }
    match raw_word(src, pos) {
        Some((w, e)) => {
            proof {
                assert forall|b: bool, f: int| #[trigger] bool_ok(src.text@, pos as int, f, b) && word_stop(src.text@, f) implies f
                    == e && w@ == src.text@.subrange(pos as int, f) by {
                    if e < f {
                        assert(ascii_letter(src.text@[e as int]));
                    } else if f < e {
                        assert(src.text@.subrange(pos as int, e as int)[f - pos] == src.text@[f]);
                    }
                }
            }
            let t: Vec<char> = vec!['t', 'r', 'u', 'e'];
            let f: Vec<char> = vec!['f', 'a', 'l', 's', 'e'];
            if crate::text::chars_eq(w.as_slice(), t.as_slice()) {
                Ok((true, e))
            } else if crate::text::chars_eq(w.as_slice(), f.as_slice()) {
                Ok((false, e))
            } else {
                Err(PErr::Error(pos))
            }
        },
        None => {
            proof {
                assert forall|b: bool, f: int| #[trigger] bool_ok(src.text@, pos as int, f, b) && word_stop(src.text@, f) implies false by {
                    assert(ascii_letter(src.text@[pos as int]));
                }
            }
            Err(PErr::Error(pos))
        },
    }
}

} // verus!

//! Syntax diagnostics: the owned, renderable result of a failed parse. Each
//! error carries its line, column, caret width, message, the keyword it is
//! about (which selects the syntax card shown), and the offending line.
use vstd::prelude::*;
use crate::keywords::{Kw, is_keyword, kw_spec, lookup_keyword};
use crate::scan::Src;
use crate::text::{ascii_letter, char_whitespace, is_whitespace, string_from_chars};

verus! {

/// One syntax error, fully owned.
#[derive(Debug, Clone, PartialEq, Eq)]
pub struct Diagnostic {
    /// 1-based source line of the failure.
    pub line: usize,
    /// 1-based column (in characters) where the caret points.
    pub col: usize,
    /// How many caret characters to draw (at least one).
    pub width: usize,
    /// The specific parser message.
    pub message: String,
    /// The keyword the message names first, if any (selects the card).
    pub keyword: Option<Kw>,
    /// `true` for a line that started no statement keyword at all.
    pub general: bool,
    /// The verbatim offending source line (without its line ending).
    pub line_text: String,
}

/// Every syntax error from one parse, plus the source label for the header.
#[derive(Debug, Clone, PartialEq, Eq)]
pub struct Diagnostics {
    /// The source label (file name); `None` until the compiler attaches it.
    pub(crate) file: Option<String>,
    /// The errors, in source order.
    pub(crate) errors: Vec<Diagnostic>,
}

impl Diagnostics {
    /// The errors, in source order.
    pub closed spec fn entries(self) -> Seq<Diagnostic> {
        self.errors@
    }

    /// The source label shown in the header, if one is attached.
    pub closed spec fn label(self) -> Option<Seq<char>> {
        match self.file {
            Some(f) => Some(f@),
            None => None,
        }
    }

    /// The errors and the label, as the fields hold them.
    pub(crate) proof fn lemma_views(self)
        ensures
            self.entries() == self.errors@,
            self.label() == match self.file {
                Some(f) => Some(f@),
                None => None::<Seq<char>>,
            },
    {
    }

    /// A diagnostics set with no source label yet.
    pub(crate) fn unlabelled(errors: Vec<Diagnostic>) -> (d: Diagnostics)
        ensures
            d.entries() == errors@,
            d.label() is None,
    {
        Diagnostics { file: None, errors }
    }

    /// How many errors were found.
    pub fn len(&self) -> (r: usize)
        ensures
            r == self.entries().len(),
    {
        self.errors.len()
    }

    /// Whether there are no errors.
    pub fn is_empty(&self) -> (r: bool)
        ensures
            r == (self.entries().len() == 0),
    {
        self.errors.len() == 0
    }

    /// The source label shown in the header, if one is attached.
    pub fn file(&self) -> (r: Option<String>)
        ensures
            match r {
                Some(f) => self.label() == Some(f@),
                None => self.label() is None,
            },
    {
        match &self.file {
            Some(f) => Some(f.clone()),
            None => None,
        }
    }

    /// Attach (or replace) the source label shown in the header.
    pub fn set_file(&mut self, file: &str)
        ensures
            final(self).label() == Some(file@),
            final(self).entries() == old(self).entries(),
    {
        self.file = Some(crate::text::string_of(file));
    }
}

// --- which keyword a message is about ---------------------------------------

/// `s[a..b]` is a maximal run of ASCII letters (a token of the message when it
/// is split at every non-letter).
pub open spec fn letter_run(s: Seq<char>, a: int, b: int) -> bool {
    &&& 0 <= a <= b <= s.len()
    &&& forall|i: int| a <= i < b ==> ascii_letter(#[trigger] s[i])
    &&& (a == 0 || !ascii_letter(s[a - 1]))
    &&& (b == s.len() || !ascii_letter(s[b]))
}

/// The token `s[a..b]` spells keyword `k`.
pub open spec fn keyword_token(s: Seq<char>, a: int, b: int, k: Kw) -> bool {
    letter_run(s, a, b) && s.subrange(a, b) == kw_spec(k)
}

/// `s[a..b]` is the first token of `s` that spells a keyword, and it spells `k`.
pub open spec fn first_keyword(s: Seq<char>, a: int, b: int, k: Kw) -> bool {
    &&& keyword_token(s, a, b, k)
    &&& forall|a2: int, b2: int, k2: Kw| #[trigger] keyword_token(s, a2, b2, k2) ==> a <= a2
}

/// The first keyword named in `message`, as its text: the message is split
/// at every non-ASCII-letter character and the first token spelling a keyword
/// wins.
pub fn keyword_in(message: &str) -> (r: Option<&'static str>)
    ensures
        r matches Some(w) ==> exists|a: int, b: int, k: Kw| #[trigger] first_keyword(message@, a, b, k) && w@ == kw_spec(k),
        r is None ==> forall|a: int, b: int, k: Kw| !#[trigger] keyword_token(message@, a, b, k),
{
    let m = crate::text::chars_of(message);
    match keyword_in_chars(m.as_slice()) {
        Some(k) => Some(crate::keywords::kw_text(k)),
        None => None,
    }
}

/// [`keyword_in`] over characters, giving the keyword itself.
pub fn keyword_in_chars(message: &[char]) -> (r: Option<Kw>)
    ensures
        r matches Some(k) ==> exists|a: int, b: int| #[trigger] first_keyword(message@, a, b, k),
        r is None ==> forall|a: int, b: int, k: Kw| !#[trigger] keyword_token(message@, a, b, k),
{
    let s = message;
    let n = s.len();
    let mut i: usize = 0;
    loop
        invariant
            n == s@.len(),
            s@ == message@,
            i <= n,
            i == 0 || i == n || !ascii_letter(s@[i - 1]) || !ascii_letter(s@[i as int]),
            forall|a2: int, b2: int, k2: Kw| keyword_token(s@, a2, b2, k2) ==> a2 >= i,
        decreases n - i,
    {
        // Skip separators.
        let ghost i0 = i;
        while i < n && !(('a' <= s[i] && s[i] <= 'z') || ('A' <= s[i] && s[i] <= 'Z'))
            invariant
                n == s@.len(),
                i0 <= i <= n,
                forall|j: int| i0 <= j < i ==> !ascii_letter(#[trigger] s@[j]),
            decreases n - i,
        {
            i = i + 1;
        }
        proof {
            assert forall|a2: int, b2: int, k2: Kw| keyword_token(s@, a2, b2, k2) implies a2
                >= i by {
                if a2 < i {
                    assert(kw_spec(k2).len() > 0) by {
                        lemma_kw_nonempty(k2);
                    }
                    assert(s@.subrange(a2, b2)[0] == s@[a2]);
                    assert(ascii_letter(s@[a2]));
                }
            }
        }
        if i == n {
            proof {
                assert forall|a: int, b: int, k: Kw| !keyword_token(s@, a, b, k) by {
                    if keyword_token(s@, a, b, k) {
                        lemma_kw_nonempty(k);
                        assert(a >= i);
                        assert(s@.subrange(a, b).len() > 0);
                    }
                }
            }
            return None;
        }
        proof {
            if i > i0 {
                assert(!ascii_letter(s@[i - 1]));
            }
        }
        let a = i;
        let mut w: Vec<char> = Vec::new();
        while i < n && (('a' <= s[i] && s[i] <= 'z') || ('A' <= s[i] && s[i] <= 'Z'))
            invariant
                n == s@.len(),
                a <= i <= n,
                w@ == s@.subrange(a as int, i as int),
                forall|j: int| a <= j < i ==> ascii_letter(#[trigger] s@[j]),
            decreases n - i,
        {
            w.push(s[i]);
            i = i + 1;
            proof {
                assert(w@ =~= s@.subrange(a as int, i as int));
            }
        }
        proof {
            assert(letter_run(s@, a as int, i as int));
        }
        match lookup_keyword(w.as_slice()) {
            Some(k) => {
                proof {
                    assert(keyword_token(s@, a as int, i as int, k));
                    assert(first_keyword(s@, a as int, i as int, k));
                }
                return Some(k);
            },
            None => {
                proof {
                    assert forall|a2: int, b2: int, k2: Kw| keyword_token(s@, a2, b2, k2) implies a2
                        >= i by {
                        if a2 < i {
                            // A token starting inside this run is the run itself.
                            if a2 > a {
                                assert(ascii_letter(s@[a2 - 1]));
                            }
                            assert(a2 == a);
                            if b2 < i {
                                assert(ascii_letter(s@[b2]));
                            }
                            if b2 > i {
                                assert(ascii_letter(s@[i as int]));
                            }
                            assert(b2 == i);
                            assert(!is_keyword(w@));
                        }
                    }
                }
            },
        }
    }
}

/// Every keyword is spelled with at least one character.
pub proof fn lemma_kw_nonempty(k: Kw)
    ensures
        kw_spec(k).len() > 0,
{
}

// --- building one diagnostic -----------------------------------------------

/// The length of `s` once trailing whitespace is removed.
pub open spec fn trimmed_len(s: Seq<char>) -> nat
    decreases s.len(),
{
    if s.len() == 0 {
        0
    } else if char_whitespace(s.last()) {
        trimmed_len(s.drop_last())
    } else {
        s.len()
    }
}

/// How many characters remain after trailing whitespace is trimmed.
pub fn trimmed_length(s: &[char]) -> (r: usize)
    ensures
        r == trimmed_len(s@),
{
    let mut n = s.len();
    proof {
        assert(s@.subrange(0, n as int) =~= s@);
    }
    while n > 0 && is_whitespace(s[n - 1])
        invariant
            n <= s@.len(),
            trimmed_len(s@) == trimmed_len(s@.subrange(0, n as int)),
        decreases n,
    {
        proof {
            let t = s@.subrange(0, n as int);
            assert(t.last() == s@[n - 1]);
            assert(s@.subrange(0, n - 1) =~= t.drop_last());
        }
        n = n - 1;
    }
    proof {
        let t = s@.subrange(0, n as int);
        if n > 0 {
            assert(t.last() == s@[n - 1]);
        }
    }
    n
}

/// The caret length: from `col` to the last non-whitespace character of the
/// line, and at least one.
pub open spec fn caret_width_spec(line_text: Seq<char>, col: nat) -> nat {
    let start: int = if col >= 1 {
        col - 1
    } else {
        0
    };
    let w: int = trimmed_len(line_text) - start;
    if w >= 1 {
        w as nat
    } else {
        1
    }
}

/// The caret length for an error at `col` on `line_text`.
pub fn caret_width(line_text: &[char], col: usize) -> (r: usize)
    ensures
        r == caret_width_spec(line_text@, col as nat),
{
    let start = if col >= 1 {
        col - 1
    } else {
        0
    };
    let t = trimmed_length(line_text);
    if t > start && t - start >= 1 {
        t - start
    } else {
        1
    }
}

/// Diagnostic `e` points at a position of `t` at or after `q`.
pub open spec fn diag_from(t: Seq<char>, e: Diagnostic, q: int) -> bool {
    exists|p: int| q <= p <= t.len() && e.line == crate::scan::line_of(t, p) && e.col == crate::scan::col_of(t, p)
}

/// The diagnostics point, in text order, at positions of `t`: entry `i`
/// carries the line and column of `ps[i]`, and the positions never go back.
pub open spec fn diags_at(t: Seq<char>, ds: Seq<Diagnostic>, ps: Seq<int>) -> bool {
    &&& ps.len() == ds.len()
    &&& forall|i: int|
        0 <= i < ds.len() ==> 0 <= ps[i] <= t.len() && (#[trigger] ds[i]).line == crate::scan::line_of(t, ps[i])
            && ds[i].col == crate::scan::col_of(t, ps[i])
    &&& forall|i: int, j: int| 0 <= i <= j < ps.len() ==> #[trigger] ps[i] <= #[trigger] ps[j]
}

/// Build one diagnostic for a failure at `pos`. `general` marks a line that
/// started no statement keyword (its class is the statement menu, so no
/// keyword is looked up).
pub(crate) fn make_diag(src: &Src, pos: usize, message: String, general: bool) -> (d: Diagnostic)
    requires
        src.wf(),
        pos <= src.len(),
    ensures
        d.message == message,
        d.general == general,
        d.line >= 1,
        d.col >= 1,
        d.width >= 1,
        general ==> d.keyword is None,
        d.line == crate::scan::line_of(src.text@, pos as int),
        d.col == crate::scan::col_of(src.text@, pos as int),
{
    let (line, col) = src.locate(pos);
    let text = src.line_text(line);
    let width = caret_width(text.as_slice(), col);
    let keyword = if general {
        None
    } else {
        let m = crate::text::chars_of_string(&message);
        keyword_in_chars(m.as_slice())
    };
    Diagnostic {
        line,
        col,
        width,
        message,
        keyword,
        general,
        line_text: string_from_chars(text.as_slice()),
    }
}

} // verus!

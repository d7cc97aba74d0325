//! The text a failed parse is reported with: a `RESULT:` header, then the
//! errors grouped by class (the keyword they are about, the statement menu,
//! or neither), each class with its syntax card shown once and every place
//! with its line, message, source line and caret.
use vstd::prelude::*;
use crate::diag::{Diagnostic, Diagnostics};
use crate::keywords::{Kw, TOP_LEVEL_COUNT, card, card_spec, kw_at, kw_by_index, kw_spec, kw_text};
use crate::text::{decimal, push_char, push_decimal, push_str, push_string};

verus! {

/// The class an error is grouped under.
#[derive(Clone, Copy, PartialEq, Eq, Debug, Structural)]
pub enum Class {
    /// A keyword named in the message: shows that keyword's syntax card.
    Keyword(Kw),
    /// A line that started no statement: shows the menu of statements.
    Statement,
    /// Self-explanatory: no card.
    Other,
}

/// The class of one error.
pub open spec fn class_of(d: Diagnostic) -> Class {
    match d.keyword {
        Some(k) => Class::Keyword(k),
        None => if d.general {
            Class::Statement
        } else {
            Class::Other
        },
    }
}

/// The classes of `ds`, each once, in order of first appearance.
pub open spec fn classes(ds: Seq<Diagnostic>) -> Seq<Class>
    decreases ds.len(),
{
    if ds.len() == 0 {
        Seq::empty()
    } else {
        let cs = classes(ds.drop_last());
        if cs.contains(class_of(ds.last())) {
            cs
        } else {
            cs.push(class_of(ds.last()))
        }
    }
}

/// The errors of class `c`, in order.
pub open spec fn members(ds: Seq<Diagnostic>, c: Class) -> Seq<Diagnostic> {
    ds.filter(is_member(c))
}

/// Membership in class `c`, as a predicate.
pub open spec fn is_member(c: Class) -> spec_fn(Diagnostic) -> bool {
    |d: Diagnostic| class_of(d) == c
}

/// How many of `total` items a limit shows: `None`, `Some(0)` or a limit of
/// at least `total` show them all.
pub open spec fn cap(limit: Option<usize>, total: nat) -> nat {
    match limit {
        Some(n) => if 0 < n < total {
            n as nat
        } else {
            total
        },
        None => total,
    }
}

/// `n` copies of `c`.
pub open spec fn repeat(c: char, n: nat) -> Seq<char> {
    Seq::new(n, |i: int| c)
}

/// A class's name: its keyword, `statement` or `other`.
pub open spec fn class_name(c: Class) -> Seq<char> {
    match c {
        Class::Keyword(k) => kw_spec(k),
        Class::Statement => "statement"@,
        Class::Other => "other"@,
    }
}

/// `singular` for one, else `plural`.
pub open spec fn plural(n: nat, singular: Seq<char>, several: Seq<char>) -> Seq<char> {
    if n == 1 {
        singular
    } else {
        several
    }
}

/// A multi-line value with each continuation line indented under the first.
pub open spec fn indent_value(v: Seq<char>) -> Seq<char>
    decreases v.len(),
{
    if v.len() == 0 {
        Seq::empty()
    } else {
        indent_value(v.drop_last()) + if v.last() == '\n' {
            seq!['\n'] + repeat(' ', 12)
        } else {
            seq![v.last()]
        }
    }
}

/// One `  name    : value` line of a class's card (`name` is 7 wide).
pub open spec fn label_line(name: Seq<char>, value: Seq<char>) -> Seq<char> {
    "  "@ + name + repeat(' ', (7 - name.len()) as nat) + " : "@ + indent_value(value) + seq!['\n']
}

/// The menu of top-level statement forms, first `n` of them.
pub open spec fn menu(n: nat) -> Seq<char>
    decreases n,
{
    if n == 0 {
        Seq::empty()
    } else {
        menu((n - 1) as nat) + "\n      "@ + card_spec(kw_at(n - 1)).form@
    }
}

/// The card lines of a class.
pub open spec fn card_part(c: Class) -> Seq<char> {
    match c {
        Class::Keyword(k) => label_line("syntax"@, card_spec(k).form@) + label_line("example"@, card_spec(k).example@),
        Class::Statement => "  expected one of these statements:"@ + menu(TOP_LEVEL_COUNT as nat) + seq!['\n'],
        Class::Other => Seq::empty(),
    }
}

/// One place: location and message, the source line, and the caret.
pub open spec fn place(d: Diagnostic) -> Seq<char> {
    let pad: nat = if d.col >= 1 {
        (d.col - 1) as nat
    } else {
        0
    };
    let carets: nat = if d.width >= 1 {
        d.width as nat
    } else {
        1
    };
    "    line "@ + decimal(d.line as nat) + ", col "@ + decimal(d.col as nat) + " - "@ + d.message@ + seq!['\n']
        + "      | "@ + d.line_text@ + seq!['\n'] + "      | "@ + repeat(' ', pad) + repeat('^', carets) + seq![
        '\n',
    ]
}

/// The places of `items`, concatenated.
pub open spec fn places(items: Seq<Diagnostic>) -> Seq<char>
    decreases items.len(),
{
    if items.len() == 0 {
        Seq::empty()
    } else {
        places(items.drop_last()) + place(items.last())
    }
}

/// The header line of a class block.
pub open spec fn block_head(c: Class, n: nat) -> Seq<char> {
    class_name(c) + "  ("@ + decimal(n) + " "@ + plural(n, "problem"@, "problems"@) + ")"@ + seq!['\n']
}

/// The line counting the places a cap leaves out (none when all are shown).
pub open spec fn more_line(c: Class, n: nat, shown: nat) -> Seq<char> {
    if shown < n {
        "    ... and "@ + decimal((n - shown) as nat) + " more "@ + class_name(c) + " "@ + plural(
            (n - shown) as nat,
            "problem"@,
            "problems"@,
        ) + seq!['\n']
    } else {
        Seq::empty()
    }
}

/// One class block with its final line break: header, card, the places
/// shown, and a line counting the places left out.
pub open spec fn block_raw(c: Class, items: Seq<Diagnostic>, max_per_class: Option<usize>) -> Seq<char> {
    let shown = cap(max_per_class, items.len());
    block_head(c, items.len()) + card_part(c) + places(items.take(shown as int)) + more_line(c, items.len(), shown)
}

/// One class block, without its final line break.
pub open spec fn block(c: Class, items: Seq<Diagnostic>, max_per_class: Option<usize>) -> Seq<char> {
    block_raw(c, items, max_per_class).drop_last()
}

/// The blocks of the first `k` classes, each after a blank line.
pub open spec fn blocks(ds: Seq<Diagnostic>, cs: Seq<Class>, max_per_class: Option<usize>) -> Seq<char>
    decreases cs.len(),
{
    if cs.len() == 0 {
        Seq::empty()
    } else {
        blocks(ds, cs.drop_last(), max_per_class) + "\n\n"@ + block(cs.last(), members(ds, cs.last()), max_per_class)
    }
}

/// The whole report.
pub open spec fn render_spec(
    file: Option<Seq<char>>,
    ds: Seq<Diagnostic>,
    max_classes: Option<usize>,
    max_per_class: Option<usize>,
) -> Seq<char> {
    let total = ds.len();
    let cs = classes(ds);
    let shown = cap(max_classes, cs.len());
    let rest = (cs.len() - shown) as nat;
    "RESULT: "@ + decimal(total) + " syntax "@ + plural(total, "error"@, "errors"@) + match file {
        Some(f) => " in "@ + f,
        None => Seq::empty(),
    } + blocks(ds, cs.take(shown as int), max_per_class) + if shown < cs.len() {
        "\n\n... and "@ + decimal(rest) + " more "@ + plural(rest, "class"@, "classes"@)
            + " — pass --max-classes 0 for all"@
    } else {
        Seq::empty()
    }
}

// --- building the report ------------------------------------------------------

fn class_of_exec(d: &Diagnostic) -> (c: Class)
    ensures
        c == class_of(*d),
{
    match d.keyword {
        Some(k) => Class::Keyword(k),
        None => if d.general {
            Class::Statement
        } else {
            Class::Other
        },
    }
}

/// The classes present, in order of first appearance.
fn find_classes(ds: &Vec<Diagnostic>) -> (r: Vec<Class>)
    ensures
        r@ == classes(ds@),
{
    let mut r: Vec<Class> = Vec::new();
    let mut i: usize = 0;
    while i < ds.len()
        invariant
            i <= ds@.len(),
            r@ == classes(ds@.take(i as int)),
        decreases ds@.len() - i,
    {
        let c = class_of_exec(&ds[i]);
        proof {
            assert(ds@.take(i + 1).drop_last() =~= ds@.take(i as int));
            assert(ds@.take(i + 1).last() == ds@[i as int]);
        }
        let mut found = false;
        let mut j: usize = 0;
        while j < r.len()
            invariant
                j <= r@.len(),
                found <==> exists|q: int| 0 <= q < j && r@[q] == c,
            decreases r@.len() - j,
        {
            if r[j] == c {
                found = true;
            }
            j = j + 1;
        }
        if !found {
            r.push(c);
        } else {
            proof {
                let q = choose|q: int| 0 <= q < r@.len() && r@[q] == c;
                assert(r@.contains(c));
            }
        }
        i = i + 1;
    }
    proof {
        assert(ds@.take(ds@.len() as int) =~= ds@);
    }
    r
}

/// The positions of the errors of class `c`, in order.
fn member_positions(ds: &Vec<Diagnostic>, c: Class) -> (r: Vec<usize>)
    ensures
        r@.len() == members(ds@, c).len(),
        forall|j: int| 0 <= j < r@.len() ==> (#[trigger] r@[j]) < ds@.len() && ds@[r@[j] as int] == members(ds@, c)[j],
{
    let mut r: Vec<usize> = Vec::new();
    let mut i: usize = 0;
    while i < ds.len()
        invariant
            i <= ds@.len(),
            r@.len() == members(ds@.take(i as int), c).len(),
            forall|j: int| 0 <= j < r@.len() ==> (#[trigger] r@[j]) < ds@.len() && ds@[r@[j] as int] == members(
                ds@.take(i as int),
                c,
            )[j],
        decreases ds@.len() - i,
    {
        let ghost before = members(ds@.take(i as int), c);
        proof {
            let t = ds@.take(i + 1);
            assert(t.drop_last() =~= ds@.take(i as int));
            assert(t.last() == ds@[i as int]);
            reveal_with_fuel(Seq::<Diagnostic>::filter, 1);
            assert(t.filter(is_member(c)) == (if is_member(c)(t.last()) {
                t.drop_last().filter(is_member(c)).push(t.last())
            } else {
                t.drop_last().filter(is_member(c))
            }));
        }
        if class_of_exec(&ds[i]) == c {
            r.push(i);
            proof {
                assert(members(ds@.take(i + 1), c) == before.push(ds@[i as int]));
            }
        } else {
            proof {
                assert(members(ds@.take(i + 1), c) == before);
            }
        }
        i = i + 1;
    }
    proof {
        assert(ds@.take(ds@.len() as int) =~= ds@);
    }
    r
}

fn cap_exec(limit: Option<usize>, total: usize) -> (r: usize)
    ensures
        r == cap(limit, total as nat),
{
    match limit {
        Some(n) => if 0 < n && n < total {
            n
        } else {
            total
        },
        None => total,
    }
}

fn push_repeat(s: &mut String, c: char, n: usize)
    ensures
        final(s)@ == old(s)@ + repeat(c, n as nat),
{
    let mut k: usize = 0;
    while k < n
        invariant
            k <= n,
            s@ == old(s)@ + repeat(c, k as nat),
        decreases n - k,
    {
        push_char(s, c);
        proof {
            assert(repeat(c, (k + 1) as nat) =~= repeat(c, k as nat).push(c));
        }
        k = k + 1;
    }
}

fn push_plural(s: &mut String, n: usize, singular: &str, several: &str)
    ensures
        final(s)@ == old(s)@ + plural(n as nat, singular@, several@),
{
    if n == 1 {
        push_str(s, singular);
    } else {
        push_str(s, several);
    }
}

/// Append a value, indenting each continuation line under the first.
fn push_indented(s: &mut String, v: &str)
    ensures
        final(s)@ == old(s)@ + indent_value(v@),
{
    let cs = crate::text::chars_of(v);
    let mut i: usize = 0;
    while i < cs.len()
        invariant
            cs@ == v@,
            i <= cs@.len(),
            s@ == old(s)@ + indent_value(cs@.take(i as int)),
        decreases cs@.len() - i,
    {
        proof {
            assert(cs@.take(i + 1).drop_last() =~= cs@.take(i as int));
            assert(cs@.take(i + 1).last() == cs@[i as int]);
        }
        let ghost s0 = s@;
        if cs[i] == '\n' {
            push_char(s, '\n');
            push_repeat(s, ' ', 12);
            proof {
                assert(s@ =~= s0 + (seq!['\n'] + repeat(' ', 12)));
            }
        } else {
            push_char(s, cs[i]);
            proof {
                assert(s@ =~= s0 + seq![cs@[i as int]]);
            }
        }
        i = i + 1;
    }
    proof {
        assert(cs@.take(cs@.len() as int) =~= cs@);
    }
}

fn push_label(s: &mut String, name: &str, value: &str)
    requires
        name@.len() <= 7,
    ensures
        final(s)@ == old(s)@ + label_line(name@, value@),
{
    let ghost s0 = s@;
    push_str(s, "  ");
    push_str(s, name);
    let w = crate::text::chars_of(name).len();
    push_repeat(s, ' ', 7 - w);
    push_str(s, " : ");
    push_indented(s, value);
    push_char(s, '\n');
    proof {
        assert(s@ =~= s0 + label_line(name@, value@));
    }
}

fn push_card(s: &mut String, c: Class)
    ensures
        final(s)@ == old(s)@ + card_part(c),
{
    let ghost s0 = s@;
    match c {
        Class::Keyword(k) => {
            let cd = card(k);
            proof {
                reveal_strlit("syntax");
                reveal_strlit("example");
            }
            push_label(s, "syntax", cd.form);
            push_label(s, "example", cd.example);
            proof {
                assert(s@ =~= s0 + card_part(c));
            }
        },
        Class::Statement => {
            push_str(s, "  expected one of these statements:");
            let ghost s1 = s@;
            let mut i: usize = 0;
            while i < TOP_LEVEL_COUNT
                invariant
                    i <= TOP_LEVEL_COUNT,
                    s@ == s1 + menu(i as nat),
                decreases TOP_LEVEL_COUNT - i,
            {
                let cd = card(kw_by_index(i));
                push_str(s, "\n      ");
                push_str(s, cd.form);
                proof {
                    assert(s@ =~= s1 + menu((i + 1) as nat));
                }
                i = i + 1;
            }
            push_char(s, '\n');
            proof {
                assert(s@ =~= s0 + card_part(c));
            }
        },
        Class::Other => {
            proof {
                assert(s@ =~= s0 + card_part(c));
            }
        },
    }
}

fn push_place(s: &mut String, d: &Diagnostic)
    ensures
        final(s)@ == old(s)@ + place(*d),
{
    let ghost s0 = s@;
    push_str(s, "    line ");
    push_decimal(s, d.line);
    push_str(s, ", col ");
    push_decimal(s, d.col);
    push_str(s, " - ");
    push_string(s, &d.message);
    push_char(s, '\n');
    push_str(s, "      | ");
    push_string(s, &d.line_text);
    push_char(s, '\n');
    push_str(s, "      | ");
    let pad = if d.col >= 1 {
        d.col - 1
    } else {
        0
    };
    push_repeat(s, ' ', pad);
    let carets = if d.width >= 1 {
        d.width
    } else {
        1
    };
    push_repeat(s, '^', carets);
    push_char(s, '\n');
    proof {
        assert(s@ =~= s0 + place(*d));
    }
}

fn push_class_name(s: &mut String, c: Class)
    ensures
        final(s)@ == old(s)@ + class_name(c),
{
    match c {
        Class::Keyword(k) => push_str(s, kw_text(k)),
        Class::Statement => push_str(s, "statement"),
        Class::Other => push_str(s, "other"),
    }
}

fn push_head(s: &mut String, c: Class, n: usize)
    ensures
        final(s)@ == old(s)@ + block_head(c, n as nat),
{
    let ghost s0 = s@;
    push_class_name(s, c);
    push_str(s, "  (");
    push_decimal(s, n);
    push_str(s, " ");
    push_plural(s, n, "problem", "problems");
    push_str(s, ")");
    push_char(s, '\n');
    proof {
        assert(s@ =~= s0 + block_head(c, n as nat));
    }
}

fn push_more(s: &mut String, c: Class, n: usize, shown: usize)
    ensures
        final(s)@ == old(s)@ + more_line(c, n as nat, shown as nat),
{
    let ghost s0 = s@;
    if shown < n {
        push_str(s, "    ... and ");
        push_decimal(s, n - shown);
        push_str(s, " more ");
        push_class_name(s, c);
        push_str(s, " ");
        push_plural(s, n - shown, "problem", "problems");
        push_char(s, '\n');
        proof {
            assert(s@ =~= s0 + more_line(c, n as nat, shown as nat));
        }
    } else {
        proof {
            assert(s@ =~= s0 + more_line(c, n as nat, shown as nat));
        }
    }
}

/// One class block, with its final line break.
fn block_text(ds: &Vec<Diagnostic>, c: Class, max_per_class: Option<usize>) -> (r: String)
    ensures
        r@ == block_raw(c, members(ds@, c), max_per_class),
{
    let pos = member_positions(ds, c);
    let ghost items = members(ds@, c);
    let n = pos.len();
    let shown = cap_exec(max_per_class, n);
    let mut raw = String::new();
    push_head(&mut raw, c, n);
    push_card(&mut raw, c);
    let ghost r0 = raw@;
    let mut j: usize = 0;
    while j < shown
        invariant
            shown <= n,
            n == pos@.len(),
            n == items.len(),
            j <= shown,
            forall|q: int| 0 <= q < pos@.len() ==> (#[trigger] pos@[q]) < ds@.len() && ds@[pos@[q] as int] == items[q],
            raw@ == r0 + places(items.take(j as int)),
        decreases shown - j,
    {
        push_place(&mut raw, &ds[pos[j]]);
        proof {
            assert(items.take(j + 1).drop_last() =~= items.take(j as int));
            assert(items.take(j + 1).last() == items[j as int]);
        }
        j = j + 1;
    }
    push_more(&mut raw, c, n, shown);
    proof {
        assert(raw@ =~= block_raw(c, items, max_per_class));
    }
    raw
}

/// Append one class block (without its final line break).
fn push_block(s: &mut String, ds: &Vec<Diagnostic>, c: Class, max_per_class: Option<usize>)
    ensures
        final(s)@ == old(s)@ + block(c, members(ds@, c), max_per_class),
{
    let raw = block_text(ds, c, max_per_class);
    let cs = crate::text::chars_of_string(&raw);
    proof {
        let shown = cap(max_per_class, members(ds@, c).len());
        assert(block_raw(c, members(ds@, c), max_per_class).len() > 0) by {
            assert(block_head(c, members(ds@, c).len()).len() > 0);
        }
    }
    let ghost s0 = s@;
    let last = cs.len() - 1;
    let mut k: usize = 0;
    while k < last
        invariant
            last + 1 == cs@.len(),
            k <= last,
            s@ == s0 + cs@.take(k as int),
        decreases last - k,
    {
        push_char(s, cs[k]);
        proof {
            assert(cs@.take(k + 1) =~= cs@.take(k as int).push(cs@[k as int]));
        }
        k = k + 1;
    }
    proof {
        assert(cs@.take(k as int) =~= cs@.drop_last());
    }
}

impl Diagnostics {
    /// Render the errors grouped by class.
    ///
    /// `max_classes` caps how many classes are shown; `max_per_class` caps how
    /// many places are listed within each class. `None`, `Some(0)`, or a cap
    /// at least the count means all. A cap that hides places adds a
    /// `... and N more <class> problems` line; one that hides classes adds a
    /// footer counting them.
    pub fn render(&self, max_classes: Option<usize>, max_per_class: Option<usize>) -> (r: String)
        ensures
            r@ == render_spec(self.label(), self.entries(), max_classes, max_per_class),
    {
        let ds = &self.errors;
        let cs = find_classes(ds);
        let total = ds.len();
        let shown = cap_exec(max_classes, cs.len());
        let mut out = String::new();
        push_str(&mut out, "RESULT: ");
        push_decimal(&mut out, total);
        push_str(&mut out, " syntax ");
        push_plural(&mut out, total, "error", "errors");
        match &self.file {
            Some(f) => {
                push_str(&mut out, " in ");
                push_string(&mut out, f);
            },
            None => {},
        }
        let ghost o0 = out@;
        proof {
            self.lemma_views();
            assert(o0 =~= "RESULT: "@ + decimal(total as nat) + " syntax "@ + plural(total as nat, "error"@, "errors"@) + match self.label() {
                Some(f) => " in "@ + f,
                None => Seq::empty(),
            });
        }
        let mut i: usize = 0;
        while i < shown
            invariant
                shown <= cs@.len(),
                cs@ == classes(ds@),
                i <= shown,
                out@ == o0 + blocks(ds@, cs@.take(i as int), max_per_class),
            decreases shown - i,
        {
            push_str(&mut out, "\n\n");
            push_block(&mut out, ds, cs[i], max_per_class);
            proof {
                assert(cs@.take(i + 1).drop_last() =~= cs@.take(i as int));
                assert(cs@.take(i + 1).last() == cs@[i as int]);
            }
            i = i + 1;
        }
        let ghost o1 = out@;
        if shown < cs.len() {
            push_str(&mut out, "\n\n... and ");
            push_decimal(&mut out, cs.len() - shown);
            push_str(&mut out, " more ");
            push_plural(&mut out, cs.len() - shown, "class", "classes");
            push_str(&mut out, " — pass --max-classes 0 for all");
        }
        proof {
            assert(out@ =~= render_spec(self.label(), self.entries(), max_classes, max_per_class));
        }
        out
    }
}

} // verus!

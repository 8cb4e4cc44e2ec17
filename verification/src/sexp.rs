//! S-expression reader for the Specctra DSN and SES formats.
//!
//! The grammar is the one Specctra files use: atoms separated by white space
//! and parentheses, `"..."` strings with backslash escapes, line comments that
//! start with `#` or `//`, and a lone `"` (followed by white space, `)` or the
//! end of the input) read as the one-character atom `"`, as in
//! `(string_quote ")`.

use vstd::prelude::*;
use crate::text::{is_white_space, is_whitespace, chars_of, string_from_chars, str_eq};

verus! {

/// A node of an S-expression: an atom, or a parenthesised list of nodes.
#[derive(Debug, PartialEq)]
pub enum Sexp {
    Atom(String),
    List(Vec<Sexp>),
}

/// The mathematical value of a [`Sexp`].
pub enum SexpView {
    Atom(Seq<char>),
    List(Seq<SexpView>),
}

/// The value of a node.
pub open spec fn sexp_view(s: Sexp) -> SexpView
    decreases s,
{
    match s {
        Sexp::Atom(a) => SexpView::Atom(a@),
        Sexp::List(v) => SexpView::List(sexps_view(v@)),
    }
}

/// The values of a sequence of nodes, element by element.
pub open spec fn sexps_view(v: Seq<Sexp>) -> Seq<SexpView>
    decreases v,
{
    if v.len() == 0 {
        Seq::empty()
    } else {
        sexps_view(v.subrange(0, v.len() - 1)).push(sexp_view(v[v.len() - 1]))
    }
}

impl View for Sexp {
    type V = SexpView;

    open spec fn view(&self) -> SexpView {
        sexp_view(*self)
    }
}

pub proof fn lemma_sexps_view(v: Seq<Sexp>)
    ensures
        sexps_view(v).len() == v.len(),
        forall|i: int| 0 <= i < v.len() ==> #[trigger] sexps_view(v)[i] == sexp_view(v[i]),
    decreases v.len(),
{
    if v.len() > 0 {
        lemma_sexps_view(v.subrange(0, v.len() - 1));
    }
}

pub proof fn lemma_sexps_view_push(v: Seq<Sexp>, x: Sexp)
    ensures
        sexps_view(v.push(x)) == sexps_view(v).push(sexp_view(x)),
{
    assert(v.push(x).subrange(0, v.len() as int) =~= v);
}

/// The atom's text, if the node is an atom.
pub open spec fn atom_of(v: SexpView) -> Option<Seq<char>> {
    match v {
        SexpView::Atom(a) => Some(a),
        SexpView::List(_) => None,
    }
}

/// The list's children, if the node is a list.
pub open spec fn children_of(v: SexpView) -> Option<Seq<SexpView>> {
    match v {
        SexpView::Atom(_) => None,
        SexpView::List(items) => Some(items),
    }
}

/// The tag of a list: its first child, when that child is an atom.
pub open spec fn name_of(v: SexpView) -> Option<Seq<char>> {
    match v {
        SexpView::List(items) => if items.len() > 0 {
            atom_of(items[0])
        } else {
            None
        },
        SexpView::Atom(_) => None,
    }
}

/// Index of the first of `items[i..]` whose tag is `key`.
pub open spec fn first_named(items: Seq<SexpView>, key: Seq<char>, i: int) -> Option<int>
    decreases items.len() - i,
{
    if i < 0 || i >= items.len() {
        None
    } else if name_of(items[i]) == Some(key) {
        Some(i)
    } else {
        first_named(items, key, i + 1)
    }
}

/// The first child of a list whose tag is `key`.
pub open spec fn find_child(v: SexpView, key: Seq<char>) -> Option<SexpView> {
    match v {
        SexpView::List(items) => match first_named(items, key, 0) {
            Some(i) => Some(items[i]),
            None => None,
        },
        SexpView::Atom(_) => None,
    }
}

pub proof fn lemma_first_named(items: Seq<SexpView>, key: Seq<char>, i: int)
    requires
        0 <= i,
    ensures
        first_named(items, key, i) matches Some(k) ==> i <= k < items.len() && name_of(items[k])
            == Some(key) && forall|m: int| i <= m < k ==> name_of(#[trigger] items[m]) != Some(
            key),
        first_named(items, key, i) is None ==> forall|m: int|
            i <= m < items.len() ==> name_of(#[trigger] items[m]) != Some(key),
    decreases items.len() - i,
{
    if i < items.len() {
        lemma_first_named(items, key, i + 1);
    }
}

pub proof fn lemma_find_child(v: SexpView, key: Seq<char>)
    ensures
        find_child(v, key) matches Some(c) ==> name_of(c) == Some(key) && children_of(c) is Some,
{
    if let SexpView::List(items) = v {
        lemma_first_named(items, key, 0);
    }
}

// ─── grammar ──────────────────────────────────────────────────────────────────

/// Why reading an S-expression failed.
#[derive(PartialEq, Eq, Structural, Clone, Copy)]
pub enum ParseFailure {
    /// A list was still open at the end of the input.
    Unclosed,
    /// A `"..."` string was still open at the end of the input.
    UnterminatedString,
    /// The input ended right after a backslash inside a `"..."` string.
    UnterminatedEscape,
}

/// The message that [`Sexp::parse`] reports for each failure.
pub open spec fn failure_message(f: ParseFailure) -> Seq<char> {
    match f {
        ParseFailure::Unclosed => "Expected ')' but got None"@,
        ParseFailure::UnterminatedString => "Unterminated string literal"@,
        ParseFailure::UnterminatedEscape => "Unterminated escape in string"@,
    }
}

/// End of the run of white space that starts at `i`.
pub open spec fn space_end(s: Seq<char>, i: int) -> int
    decreases s.len() - i,
{
    if 0 <= i < s.len() && is_white_space(s[i]) {
        space_end(s, i + 1)
    } else {
        i
    }
}

/// Index of the first newline at or after `i`, or the end of `s`.
pub open spec fn line_end(s: Seq<char>, i: int) -> int
    decreases s.len() - i,
{
    if 0 <= i < s.len() && s[i] != '\n' {
        line_end(s, i + 1)
    } else {
        i
    }
}

/// Whether a line comment (`#` or `//`) starts at `j`.
pub open spec fn starts_comment(s: Seq<char>, j: int) -> bool {
    0 <= j < s.len() && (s[j] == '#' || (s[j] == '/' && j + 1 < s.len() && s[j + 1] == '/'))
}

/// Index of the first character at or after `i` that is neither white space
/// nor inside a line comment.
pub open spec fn skip_blank(s: Seq<char>, i: int) -> int
    decreases s.len() - i,
{
    let j = space_end(s, i);
    if starts_comment(s, j) && i < line_end(s, j) <= s.len() {
        skip_blank(s, line_end(s, j))
    } else {
        j
    }
}

/// The text of a `"..."` string whose body starts at `p`: each backslash takes
/// the next character literally; with the index just past the closing quote.
pub open spec fn quoted_body(s: Seq<char>, p: int, acc: Seq<char>) -> Result<
    (Seq<char>, int),
    ParseFailure,
>
    decreases s.len() - p,
{
    if p < 0 || p >= s.len() {
        Err(ParseFailure::UnterminatedString)
    } else if s[p] == '"' {
        Ok((acc, p + 1))
    } else if s[p] == '\\' {
        if p + 1 >= s.len() {
            Err(ParseFailure::UnterminatedEscape)
        } else {
            quoted_body(s, p + 2, acc.push(s[p + 1]))
        }
    } else {
        quoted_body(s, p + 1, acc.push(s[p]))
    }
}

/// A quoted run inside an atom (as in `X14-"D-"`), whose body starts at `p`:
/// the quotes are kept, a backslash takes the next character, and the end of
/// the input closes the run.
pub open spec fn embedded(s: Seq<char>, p: int, acc: Seq<char>) -> (Seq<char>, int)
    decreases s.len() - p,
{
    if p < 0 || p >= s.len() {
        (acc, p)
    } else if s[p] == '"' {
        (acc.push('"'), p + 1)
    } else if s[p] == '\\' {
        if p + 1 < s.len() {
            embedded(s, p + 2, acc.push(s[p + 1]))
        } else {
            (acc, p + 1)
        }
    } else {
        embedded(s, p + 1, acc.push(s[p]))
    }
}

/// Characters that end an unquoted atom.
pub open spec fn is_delimiter(c: char) -> bool {
    c == '(' || c == ')' || is_white_space(c)
}

/// An unquoted atom that continues at `p`, with the index where it ends.
pub open spec fn bare_atom(s: Seq<char>, p: int, acc: Seq<char>) -> (Seq<char>, int)
    decreases s.len() - p,
{
    if p < 0 || p >= s.len() || is_delimiter(s[p]) {
        (acc, p)
    } else if s[p] == '"' {
        let (a2, q) = embedded(s, p + 1, acc.push('"'));
        if p < q <= s.len() {
            bare_atom(s, q, a2)
        } else {
            (a2, q)
        }
    } else {
        bare_atom(s, p + 1, acc.push(s[p]))
    }
}

/// Whether the `"` at `j` stands alone: it is followed by white space, `)` or
/// the end of the input.
pub open spec fn lone_quote(s: Seq<char>, j: int) -> bool {
    j + 1 >= s.len() || s[j + 1] == ')' || is_white_space(s[j + 1])
}

/// Puts `pre` in front of the items of a successful read.
pub open spec fn prepend(pre: Seq<SexpView>, r: Result<(Seq<SexpView>, int), ParseFailure>) -> Result<
    (Seq<SexpView>, int),
    ParseFailure,
> {
    match r {
        Ok((rest, e)) => Ok((pre + rest, e)),
        Err(f) => Err(f),
    }
}

/// The sequence of nodes that starts at `i`, up to the end of the input or to
/// the `)` that closes the enclosing list (not consumed), with the index where
/// it stops.
pub open spec fn parse_items(s: Seq<char>, i: int) -> Result<(Seq<SexpView>, int), ParseFailure>
    decreases s.len() - i,
{
    let j = skip_blank(s, i);
    if !(0 <= i <= j <= s.len()) || j == s.len() || s[j] == ')' {
        Ok((Seq::empty(), j))
    } else if s[j] == '(' {
        match parse_items(s, j + 1) {
            Err(f) => Err(f),
            Ok((children, k)) => {
                let m = skip_blank(s, k);
                if j < m < s.len() && s[m] == ')' {
                    prepend(seq![SexpView::List(children)], parse_items(s, m + 1))
                } else {
                    Err(ParseFailure::Unclosed)
                }
            },
        }
    } else if s[j] == '"' && lone_quote(s, j) {
        prepend(seq![SexpView::Atom(seq!['"'])], parse_items(s, j + 1))
    } else if s[j] == '"' {
        match quoted_body(s, j + 1, Seq::empty()) {
            Err(f) => Err(f),
            Ok((body, k)) => if j < k <= s.len() {
                prepend(seq![SexpView::Atom(body)], parse_items(s, k))
            } else {
                Err(ParseFailure::UnterminatedString)
            },
        }
    } else {
        let (a, k) = bare_atom(s, j, Seq::empty());
        if j < k <= s.len() {
            prepend(
                if a.len() > 0 {
                    seq![SexpView::Atom(a)]
                } else {
                    Seq::empty()
                },
                parse_items(s, k),
            )
        } else {
            Ok((Seq::empty(), j))
        }
    }
}

/// What [`Sexp::parse`] makes of a text: its one top-level node, or a list of
/// all of them when there are none or several.
pub open spec fn parse_text(s: Seq<char>) -> Result<SexpView, Seq<char>> {
    match parse_items(s, 0) {
        Err(f) => Err(failure_message(f)),
        Ok((items, _)) => Ok(
            if items.len() == 1 {
                items[0]
            } else {
                SexpView::List(items)
            },
        ),
    }
}

// ─── lemmas on the grammar ───────────────────────────────────────────────────

proof fn lemma_space_end(s: Seq<char>, i: int)
    requires
        0 <= i <= s.len(),
    ensures
        i <= space_end(s, i) <= s.len(),
        space_end(s, i) < s.len() ==> !is_white_space(s[space_end(s, i)]),
    decreases s.len() - i,
{
    if i < s.len() && is_white_space(s[i]) {
        lemma_space_end(s, i + 1);
    }
}

proof fn lemma_line_end(s: Seq<char>, i: int)
    requires
        0 <= i <= s.len(),
    ensures
        i <= line_end(s, i) <= s.len(),
        line_end(s, i) < s.len() ==> s[line_end(s, i)] == '\n',
    decreases s.len() - i,
{
    if i < s.len() && s[i] != '\n' {
        lemma_line_end(s, i + 1);
    }
}

proof fn lemma_skip_blank(s: Seq<char>, i: int)
    requires
        0 <= i <= s.len(),
    ensures
        i <= skip_blank(s, i) <= s.len(),
        skip_blank(s, i) < s.len() ==> !is_white_space(s[skip_blank(s, i)]) && !starts_comment(
            s,
            skip_blank(s, i),
        ),
    decreases s.len() - i,
{
    let j = space_end(s, i);
    lemma_space_end(s, i);
    if starts_comment(s, j) {
        lemma_line_end(s, j);
        assert(s[j] != '\n');
        lemma_skip_blank(s, line_end(s, j));
    }
}

proof fn lemma_quoted_body(s: Seq<char>, p: int, acc: Seq<char>)
    requires
        0 <= p <= s.len(),
    ensures
        quoted_body(s, p, acc) matches Ok((_, k)) ==> p < k <= s.len(),
    decreases s.len() - p,
{
    if p < s.len() && s[p] != '"' {
        if s[p] == '\\' {
            if p + 1 < s.len() {
                lemma_quoted_body(s, p + 2, acc.push(s[p + 1]));
            }
        } else {
            lemma_quoted_body(s, p + 1, acc.push(s[p]));
        }
    }
}

proof fn lemma_embedded(s: Seq<char>, p: int, acc: Seq<char>)
    requires
        0 <= p <= s.len(),
    ensures
        p <= embedded(s, p, acc).1 <= s.len(),
    decreases s.len() - p,
{
    if p < s.len() && s[p] != '"' {
        if s[p] == '\\' {
            if p + 1 < s.len() {
                lemma_embedded(s, p + 2, acc.push(s[p + 1]));
            }
        } else {
            lemma_embedded(s, p + 1, acc.push(s[p]));
        }
    }
}

proof fn lemma_bare_atom(s: Seq<char>, p: int, acc: Seq<char>)
    requires
        0 <= p <= s.len(),
    ensures
        p <= bare_atom(s, p, acc).1 <= s.len(),
        bare_atom(s, p, acc).0.len() >= acc.len(),
        p < s.len() && !is_delimiter(s[p]) ==> p < bare_atom(s, p, acc).1 && bare_atom(
            s,
            p,
            acc,
        ).0.len() > acc.len(),
    decreases s.len() - p,
{
    if p < s.len() && !is_delimiter(s[p]) {
        if s[p] == '"' {
            lemma_embedded(s, p + 1, acc.push('"'));
            let (a2, q) = embedded(s, p + 1, acc.push('"'));
            lemma_embedded_grows(s, p + 1, acc.push('"'));
            lemma_bare_atom(s, q, a2);
        } else {
            lemma_bare_atom(s, p + 1, acc.push(s[p]));
        }
    }
}

proof fn lemma_embedded_grows(s: Seq<char>, p: int, acc: Seq<char>)
    ensures
        embedded(s, p, acc).0.len() >= acc.len(),
    decreases s.len() - p,
{
    if 0 <= p < s.len() && s[p] != '"' {
        if s[p] == '\\' {
            if p + 1 < s.len() {
                lemma_embedded_grows(s, p + 2, acc.push(s[p + 1]));
            }
        } else {
            lemma_embedded_grows(s, p + 1, acc.push(s[p]));
        }
    }
}

proof fn lemma_parse_items(s: Seq<char>, i: int)
    requires
        0 <= i <= s.len(),
    ensures
        parse_items(s, i) matches Ok((_, e)) ==> i <= e <= s.len() && (e == s.len() || s[e]
            == ')'),
    decreases s.len() - i,
{
    let j = skip_blank(s, i);
    lemma_skip_blank(s, i);
    if j < s.len() && s[j] != ')' {
        if s[j] == '(' {
            lemma_parse_items(s, j + 1);
            if let Ok((children, k)) = parse_items(s, j + 1) {
                lemma_skip_blank(s, k);
                let m = skip_blank(s, k);
                if m < s.len() && s[m] == ')' {
                    lemma_parse_items(s, m + 1);
                }
            }
        } else if s[j] == '"' && lone_quote(s, j) {
            lemma_parse_items(s, j + 1);
        } else if s[j] == '"' {
            lemma_quoted_body(s, j + 1, Seq::empty());
            if let Ok((body, k)) = quoted_body(s, j + 1, Seq::empty()) {
                lemma_parse_items(s, k);
            }
        } else {
            lemma_bare_atom(s, j, Seq::empty());
            lemma_parse_items(s, bare_atom(s, j, Seq::empty()).1);
        }
    }
}

// ─── reader ───────────────────────────────────────────────────────────────────

fn skip_blank_at(s: &Vec<char>, i: usize) -> (r: usize)
    requires
        i <= s.len(),
    ensures
        r == skip_blank(s@, i as int),
{
    let mut p = i;
    proof {
        lemma_space_end(s@, i as int);
    }
    loop
        invariant
            i <= p <= s.len(),
            skip_blank(s@, i as int) == skip_blank(s@, p as int),
        decreases s.len() - p,
    {
        let q = p;
        // white space
        let ghost sp = space_end(s@, q as int);
        proof {
            lemma_space_end(s@, q as int);
        }
        while p < s.len() && is_whitespace(s[p])
            invariant
                q <= p <= s.len(),
                space_end(s@, q as int) == space_end(s@, p as int),
            decreases s.len() - p,
        {
            p = p + 1;
        }
        assert(p == sp);
        let comment = p < s.len() && (s[p] == '#' || (s[p] == '/' && p + 1 < s.len() && s[p + 1]
            == '/'));
        if comment {
            let j = p;
            proof {
                lemma_line_end(s@, j as int);
            }
            while p < s.len() && s[p] != '\n'
                invariant
                    j <= p <= s.len(),
                    line_end(s@, j as int) == line_end(s@, p as int),
                decreases s.len() - p,
            {
                p = p + 1;
            }
            assert(p as int == line_end(s@, j as int));
            assert(p > j);
        } else {
            return p;
        }
    }
}

fn quoted_body_at(s: &Vec<char>, start: usize) -> (r: Result<(Vec<char>, usize), ParseFailure>)
    requires
        start <= s.len(),
    ensures
        match quoted_body(s@, start as int, Seq::empty()) {
            Ok((body, k)) => r matches Ok((v, p)) && v@ == body && p == k,
            Err(f) => r == Err::<(Vec<char>, usize), ParseFailure>(f),
        },
{
    let mut acc: Vec<char> = Vec::new();
    let mut p = start;
    loop
        invariant
            start <= p <= s.len(),
            quoted_body(s@, start as int, Seq::empty()) == quoted_body(s@, p as int, acc@),
        decreases s.len() - p,
    {
        if p >= s.len() {
            return Err(ParseFailure::UnterminatedString);
        }
        let c = s[p];
        if c == '"' {
            return Ok((acc, p + 1));
        } else if c == '\\' {
            if p + 1 >= s.len() {
                return Err(ParseFailure::UnterminatedEscape);
            }
            acc.push(s[p + 1]);
            p = p + 2;
        } else {
            acc.push(c);
            p = p + 1;
        }
    }
}

fn embedded_at(s: &Vec<char>, start: usize, acc: &mut Vec<char>) -> (r: usize)
    requires
        start <= s.len(),
    ensures
        embedded(s@, start as int, old(acc)@) == (final(acc)@, r as int),
{
    let mut p = start;
    loop
        invariant
            start <= p <= s.len(),
            embedded(s@, start as int, old(acc)@) == embedded(s@, p as int, acc@),
        decreases s.len() - p,
    {
        if p >= s.len() {
            return p;
        }
        let c = s[p];
        if c == '"' {
            acc.push('"');
            return p + 1;
        } else if c == '\\' {
            if p + 1 < s.len() {
                acc.push(s[p + 1]);
                p = p + 2;
            } else {
                return p + 1;
            }
        } else {
            acc.push(c);
            p = p + 1;
        }
    }
}

fn bare_atom_at(s: &Vec<char>, start: usize) -> (r: (Vec<char>, usize))
    requires
        start <= s.len(),
    ensures
        bare_atom(s@, start as int, Seq::empty()) == (r.0@, r.1 as int),
{
    let mut acc: Vec<char> = Vec::new();
    let mut p = start;
    loop
        invariant
            start <= p <= s.len(),
            bare_atom(s@, start as int, Seq::empty()) == bare_atom(s@, p as int, acc@),
        decreases s.len() - p,
    {
        if p >= s.len() {
            return (acc, p);
        }
        let c = s[p];
        if c == '(' || c == ')' || is_whitespace(c) {
            return (acc, p);
        }
        if c == '"' {
            acc.push('"');
            let ghost a1 = acc@;
            let q = embedded_at(s, p + 1, &mut acc);
            proof {
                lemma_embedded(s@, p + 1, a1);
            }
            p = q;
        } else {
            acc.push(c);
            p = p + 1;
        }
    }
}

fn parse_items_at(s: &Vec<char>, start: usize) -> (r: Result<(Vec<Sexp>, usize), ParseFailure>)
    requires
        start <= s.len(),
    ensures
        match parse_items(s@, start as int) {
            Ok((items, e)) => r matches Ok((v, p)) && sexps_view(v@) == items && p == e,
            Err(f) => r == Err::<(Vec<Sexp>, usize), ParseFailure>(f),
        },
    decreases s.len() - start,
{
    let mut items: Vec<Sexp> = Vec::new();
    let mut p = start;
    loop
        invariant
            start <= p <= s.len(),
            parse_items(s@, start as int) == prepend(sexps_view(items@), parse_items(s@, p as int)),
        decreases s.len() - p,
    {
        let ghost p0 = p;
        let ghost before = items@;
        let j = skip_blank_at(s, p);
        proof {
            lemma_skip_blank(s@, p as int);
        }
        if j == s.len() || s[j] == ')' {
            proof {
                assert(sexps_view(items@) + Seq::<SexpView>::empty() =~= sexps_view(items@));
            }
            return Ok((items, j));
        }
        let c = s[j];
        if c == '(' {
            let inner = parse_items_at(s, j + 1);
            match inner {
                Err(f) => {
                    return Err(f);
                },
                Ok((children, k)) => {
                    proof {
                        lemma_parse_items(s@, j + 1);
                    }
                    let m = skip_blank_at(s, k);
                    proof {
                        lemma_skip_blank(s@, k as int);
                    }
                    if m < s.len() && s[m] == ')' {
                        let node = Sexp::List(children);
                        proof {
                            lemma_sexps_view_push(items@, node);
                            assert(sexps_view(items@.push(node)) =~= sexps_view(items@) + seq![
                                SexpView::List(sexps_view(children@))]);
                        }
                        items.push(node);
                        p = m + 1;
                    } else {
                        return Err(ParseFailure::Unclosed);
                    }
                },
            }
        } else if c == '"' && (j + 1 >= s.len() || s[j + 1] == ')' || is_whitespace(s[j + 1])) {
            let mut q: Vec<char> = Vec::new();
            q.push('"');
            let node = Sexp::Atom(string_from_chars(q));
            proof {
                lemma_sexps_view_push(items@, node);
                assert(q@ =~= seq!['"']);
                assert(sexps_view(items@.push(node)) =~= sexps_view(items@) + seq![
                    SexpView::Atom(seq!['"'])]);
            }
            items.push(node);
            p = j + 1;
        } else if c == '"' {
            match quoted_body_at(s, j + 1) {
                Err(f) => {
                    return Err(f);
                },
                Ok((body, k)) => {
                    proof {
                        lemma_quoted_body(s@, j + 1, Seq::empty());
                    }
                    let ghost bv = body@;
                    let node = Sexp::Atom(string_from_chars(body));
                    proof {
                        lemma_sexps_view_push(items@, node);
                        assert(sexps_view(items@.push(node)) =~= sexps_view(items@) + seq![
                            SexpView::Atom(bv)]);
                    }
                    items.push(node);
                    p = k;
                },
            }
        } else {
            let (a, k) = bare_atom_at(s, j);
            proof {
                lemma_bare_atom(s@, j as int, Seq::empty());
            }
            if a.len() > 0 {
                let ghost av = a@;
                let node = Sexp::Atom(string_from_chars(a));
                proof {
                    lemma_sexps_view_push(items@, node);
                    assert(sexps_view(items@.push(node)) =~= sexps_view(items@) + seq![
                        SexpView::Atom(av)]);
                }
                items.push(node);
            } else {
                assert(sexps_view(items@) + Seq::<SexpView>::empty() =~= sexps_view(items@));
            }
            p = k;
        }
        proof {
            assert(forall|a: Seq<SexpView>, b: Seq<SexpView>, c: Seq<SexpView>|
                #![trigger (a + b) + c]
                (a + b) + c =~= a + (b + c));
        }
    }
}

impl Sexp {
    /// The atom's text, if this node is an atom.
    pub fn as_atom(&self) -> (r: Option<&str>)
        ensures
            match r {
                Some(a) => atom_of(self@) == Some(a@),
                None => atom_of(self@) is None,
            },
    {
        match self {
            Sexp::Atom(s) => Some(s.as_str()),
            _ => None,
        }
    }

    /// The children, if this node is a list.
    pub fn as_list(&self) -> (r: Option<&[Sexp]>)
        ensures
            match r {
                Some(l) => children_of(self@) == Some(sexps_view(l@)),
                None => children_of(self@) is None,
            },
    {
        match self {
            Sexp::List(v) => Some(v.as_slice()),
            _ => None,
        }
    }

    /// The tag of this list: its first child, when that child is an atom.
    pub fn name(&self) -> (r: Option<&str>)
        ensures
            match r {
                Some(a) => name_of(self@) == Some(a@),
                None => name_of(self@) is None,
            },
    {
        match self {
            Sexp::List(v) => {
                proof {
                    lemma_sexps_view(v@);
                }
                if v.len() == 0 {
                    None
                } else {
                    v[0].as_atom()
                }
            },
            _ => None,
        }
    }

    /// The first child list whose tag is `key`.
    pub fn find(&self, key: &str) -> (r: Option<&Sexp>)
        ensures
            match r {
                Some(c) => find_child(self@, key@) == Some(c@),
                None => find_child(self@, key@) is None,
            },
    {
        match self {
            Sexp::List(v) => {
                let ghost items = sexps_view(v@);
                proof {
                    lemma_sexps_view(v@);
                }
                let mut i: usize = 0;
                while i < v.len()
                    invariant
                        i <= v.len(),
                        items == sexps_view(v@),
                        self@ == SexpView::List(items),
                        items.len() == v.len(),
                        forall|k: int| 0 <= k < v.len() ==> #[trigger] items[k] == sexp_view(v@[k]),
                        first_named(items, key@, 0) == first_named(items, key@, i as int),
                    decreases v.len() - i,
                {
                    let hit = match v[i].name() {
                        Some(n) => str_eq(n, key),
                        None => false,
                    };
                    if hit {
                        proof {
                            assert(items[i as int] == sexp_view(v@[i as int]));
                            assert(first_named(items, key@, i as int) == Some(i as int));
                        }
                        return Some(&v[i]);
                    }
                    i = i + 1;
                }
                None
            },
            _ => None,
        }
    }

    /// Reads an S-expression. The result is the text's one top-level node, or
    /// a list of its top-level nodes when there are none or several. Reading
    /// stops at a `)` that closes nothing.
    pub fn parse(input: &str) -> (r: Result<Sexp, String>)
        ensures
            match parse_text(input@) {
                Ok(v) => r matches Ok(e) && e@ == v,
                Err(m) => r matches Err(msg) && msg@ == m,
            },
    {
        let s = chars_of(input);
        match parse_items_at(&s, 0) {
            Ok((items, _)) => {
                proof {
                    lemma_sexps_view(items@);
                }
                if items.len() == 1 {
                    let mut items = items;
                    let ghost iv = items@;
                    let e = items.pop().unwrap();
                    proof {
                        assert(e == iv[0]);
                    }
                    Ok(e)
                } else {
                    Ok(Sexp::List(items))
                }
            },
            Err(f) => {
                let msg = match f {
                    ParseFailure::Unclosed => "Expected ')' but got None".to_string(),
                    ParseFailure::UnterminatedString => "Unterminated string literal".to_string(),
                    ParseFailure::UnterminatedEscape => "Unterminated escape in string".to_string(),
                };
                Err(msg)
            },
        }
    }
}

} // verus!

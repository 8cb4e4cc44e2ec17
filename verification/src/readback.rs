//! What the reader makes of text laid out as tokens, lists and blank runs:
//! the tree it was laid out from. The session writer lays its text out this
//! way, so a session reads back as its tree.

use vstd::prelude::*;
use crate::sexp::{SexpView, parse_text, parse_items, skip_blank, space_end, starts_comment, quoted_body, bare_atom, is_delimiter, lone_quote, prepend, ParseFailure};
use crate::ses::{escaped, escape_char, must_quote, quoted_of, session_text, session_head, net_blocks, net_block, net_used, wire_lines, via_lines, wire_line, via_line, points_text};
use crate::router::{RoutedWire, RoutedVia, RoutingResult};
use crate::dsn::DesignView;
use crate::text::{decimal_of, digits_of, digit_char};
use crate::text::is_white_space;

verus! {

/// A layout of an S-expression.
pub enum Doc {
    /// A token written bare.
    Word(Seq<char>),
    /// A token written in double quotes, escaped.
    Text(Seq<char>),
    /// A double quote standing alone.
    Quote,
    /// A list: each child after its blank run, then a closing blank run.
    Group(Seq<(Seq<char>, Doc)>, Seq<char>),
}

/// The text of a layout.
pub open spec fn render(d: Doc) -> Seq<char>
    decreases d,
{
    match d {
        Doc::Word(w) => w,
        Doc::Text(x) => seq!['"'] + escaped(x) + seq!['"'],
        Doc::Quote => seq!['"'],
        Doc::Group(items, trail) => seq!['('] + render_items(items) + trail + seq![')'],
    }
}

/// The text of the children of a list, each after its blank run.
pub open spec fn render_items(items: Seq<(Seq<char>, Doc)>) -> Seq<char>
    decreases items,
{
    if items.len() == 0 {
        Seq::empty()
    } else {
        items[0].0 + render(items[0].1) + render_items(items.drop_first())
    }
}

/// The tree a layout stands for.
pub open spec fn tree(d: Doc) -> SexpView
    decreases d,
{
    match d {
        Doc::Word(w) => SexpView::Atom(w),
        Doc::Text(x) => SexpView::Atom(x),
        Doc::Quote => SexpView::Atom(seq!['"']),
        Doc::Group(items, _) => SexpView::List(trees(items)),
    }
}

pub open spec fn trees(items: Seq<(Seq<char>, Doc)>) -> Seq<SexpView>
    decreases items,
{
    if items.len() == 0 {
        Seq::empty()
    } else {
        seq![tree(items[0].1)] + trees(items.drop_first())
    }
}

/// A run of spaces and newlines.
pub open spec fn blank(g: Seq<char>) -> bool {
    forall|i: int| 0 <= i < g.len() ==> #[trigger] g[i] == ' ' || g[i] == '\n'
}

/// A token the reader takes back bare: not empty, no delimiter or quote, and
/// not the start of a comment.
pub open spec fn word_ok(w: Seq<char>) -> bool {
    &&& w.len() > 0
    &&& forall|i: int| 0 <= i < w.len() ==> !is_delimiter(#[trigger] w[i]) && w[i] != '"'
    &&& w[0] != '#'
    &&& !(w[0] == '/' && w.len() > 1 && w[1] == '/')
}

/// A token the reader takes back from quotes: its first character is
/// neither white space nor `)` (which would leave the opening quote alone).
pub open spec fn text_ok(x: Seq<char>) -> bool {
    x.len() == 0 || (x[0] != ')' && !is_white_space(x[0]))
}

/// A child that a blank, a `)` or the end must follow.
pub open spec fn needs_gap(d: Doc) -> bool {
    d is Word || d is Quote
}

pub open spec fn doc_ok(d: Doc) -> bool
    decreases d,
{
    match d {
        Doc::Word(w) => word_ok(w),
        Doc::Text(x) => text_ok(x),
        Doc::Quote => true,
        Doc::Group(items, trail) => items_ok(items, trail),
    }
}

pub open spec fn items_ok(items: Seq<(Seq<char>, Doc)>, trail: Seq<char>) -> bool
    decreases items,
{
    if items.len() == 0 {
        blank(trail)
    } else {
        &&& blank(items[0].0)
        &&& doc_ok(items[0].1)
        &&& (needs_gap(items[0].1) && items.len() > 1 ==> items[1].0.len() > 0)
        &&& items_ok(items.drop_first(), trail)
    }
}

proof fn lemma_space_run(t: Seq<char>, i: int, g: Seq<char>)
    requires
        0 <= i,
        i + g.len() <= t.len(),
        t.subrange(i, i + g.len() as int) == g,
        blank(g),
    ensures
        space_end(t, i) == space_end(t, i + g.len()),
    decreases g.len(),
{
    if g.len() > 0 {
        assert(t[i] == g[0]);
        assert(is_white_space(t[i]));
        let g2 = g.drop_first();
        assert(t.subrange(i + 1, i + 1 + g2.len() as int) =~= g2) by {
            assert forall|k: int| 0 <= k < g2.len() implies t.subrange(i + 1, i + 1 + g2.len() as int)[k] == g2[k] by {
                assert(t[i + 1 + k] == t.subrange(i, i + g.len() as int)[k + 1]);
            }
        }
        assert(blank(g2)) by {
            assert forall|k: int| 0 <= k < g2.len() implies #[trigger] g2[k] == ' ' || g2[k] == '\n' by {
                assert(g2[k] == g[k + 1]);
            }
        }
        lemma_space_run(t, i + 1, g2);
    }
}

/// The first character of a layout: never blank, never a comment start.
proof fn lemma_render_start(d: Doc)
    requires
        doc_ok(d),
    ensures
        render(d).len() > 0,
        !is_white_space(render(d)[0]),
        render(d)[0] != '#',
        render(d)[0] != ')',
        render(d)[0] == '/' ==> d is Word,
{
    match d {
        Doc::Word(w) => {
            assert(!is_delimiter(w[0]));
        },
        Doc::Text(x) => {
            assert(render(d)[0] == '"');
        },
        Doc::Quote => {},
        Doc::Group(items, trail) => {
            assert(render(d)[0] == '(');
        },
    }
}

/// Reading a bare token that a delimiter (or the end) follows.
proof fn lemma_bare_word(t: Seq<char>, j: int, w: Seq<char>, acc: Seq<char>)
    requires
        0 <= j,
        j + w.len() <= t.len(),
        t.subrange(j, j + w.len() as int) == w,
        forall|i: int| 0 <= i < w.len() ==> !is_delimiter(#[trigger] w[i]) && w[i] != '"',
        j + w.len() == t.len() || is_delimiter(t[j + w.len()]),
    ensures
        bare_atom(t, j, acc) == (acc + w, j + w.len()),
    decreases w.len(),
{
    if w.len() == 0 {
        assert(acc + w =~= acc);
    } else {
        assert(t[j] == w[0]);
        assert(!is_delimiter(w[0]) && w[0] != '"');
        let w2 = w.drop_first();
        assert(t.subrange(j + 1, j + 1 + w2.len() as int) =~= w2) by {
            assert forall|k: int| 0 <= k < w2.len() implies t.subrange(j + 1, j + 1 + w2.len() as int)[k] == w2[k] by {
                assert(t[j + 1 + k] == t.subrange(j, j + w.len() as int)[k + 1]);
            }
        }
        assert forall|i: int| 0 <= i < w2.len() implies !is_delimiter(#[trigger] w2[i]) && w2[i] != '"' by {
            assert(w2[i] == w[i + 1]);
        }
        lemma_bare_word(t, j + 1, w2, acc.push(w[0]));
        assert(acc.push(w[0]) + w2 =~= acc + w);
    }
}

proof fn lemma_render_items_concat(a: Seq<(Seq<char>, Doc)>, b: Seq<(Seq<char>, Doc)>)
    ensures
        render_items(a + b) == render_items(a) + render_items(b),
        trees(a + b) == trees(a) + trees(b),
    decreases a.len(),
{
    if a.len() == 0 {
        assert(a + b =~= b);
    } else {
        lemma_render_items_concat(a.drop_first(), b);
        assert((a + b).drop_first() =~= a.drop_first() + b);
        assert((a + b)[0] == a[0]);
        assert(render_items(a + b) =~= render_items(a) + render_items(b));
        assert(trees(a + b) =~= trees(a) + trees(b));
    }
}

/// The reader takes the children of a list back from their layout: from `i`
/// on, `t` holds their text and the closing blank run, then `)` or the end.
proof fn lemma_read_items(t: Seq<char>, i: int, items: Seq<(Seq<char>, Doc)>, trail: Seq<char>)
    requires
        items_ok(items, trail),
        0 <= i,
        i + (render_items(items) + trail).len() <= t.len(),
        t.subrange(i, i + (render_items(items) + trail).len()) == render_items(items) + trail,
        i + (render_items(items) + trail).len() == t.len() || t[i + (render_items(items) + trail).len()] == ')',
    ensures
        parse_items(t, i) == Ok::<(Seq<SexpView>, int), ParseFailure>((trees(items), i + (render_items(items) + trail).len())),
    decreases items, 1int,
{
    reveal_with_fuel(items_ok, 2);
    reveal_with_fuel(doc_ok, 2);
    let whole = render_items(items) + trail;
    let e = i + whole.len();
    if items.len() == 0 {
        assert(whole =~= trail);
        lemma_space_run(t, i, trail);
        if e < t.len() {
            assert(!is_white_space(t[e]));
        }
        assert(space_end(t, e) == e);
        assert(!starts_comment(t, e));
        assert(skip_blank(t, i) == e);
    } else {
        let g = items[0].0;
        let d = items[0].1;
        let rest = items.drop_first();
        let rd = render(d);
        let j = i + g.len();
        let k = j + rd.len();
        assert(whole =~= g + rd + (render_items(rest) + trail));
        assert(t.subrange(i, j) =~= g) by {
            assert forall|x: int| 0 <= x < g.len() implies t.subrange(i, j)[x] == g[x] by {
                assert(t[i + x] == whole[x]);
            }
        }
        assert(t.subrange(j, k) =~= rd) by {
            assert forall|x: int| 0 <= x < rd.len() implies t.subrange(j, k)[x] == rd[x] by {
                assert(t[j + x] == whole[g.len() + x]);
            }
        }
        let tail = render_items(rest) + trail;
        assert(t.subrange(k, e) =~= tail) by {
            assert forall|x: int| 0 <= x < tail.len() implies t.subrange(k, e)[x] == tail[x] by {
                assert(t[k + x] == whole[g.len() + rd.len() + x]);
            }
        }
        lemma_render_start(d);
        lemma_space_run(t, i, g);
        assert(t[j] == rd[0]);
        lemma_space_end_at(t, j);
        // What follows the child: a blank, `)` or the end.
        if needs_gap(d) {
            if k < t.len() {
                if rest.len() > 0 {
                    assert(items_ok(rest, trail));
                    assert(blank(rest[0].0));
                    assert(rest[0].0.len() > 0);
                    assert(rest[0].0[0] == ' ' || rest[0].0[0] == '\n');
                    assert(render_items(rest) =~= rest[0].0 + render(rest[0].1) + render_items(rest.drop_first()));
                    assert(tail[0] == rest[0].0[0]);
                    assert(t[k] == tail[0]);
                    assert(is_white_space(t[k]));
                } else if trail.len() > 0 {
                    assert(items_ok(rest, trail));
                    assert(blank(trail));
                    assert(trail[0] == ' ' || trail[0] == '\n');
                    assert(tail =~= trail);
                    assert(t[k] == trail[0]);
                    assert(is_white_space(t[k]));
                } else {
                    assert(tail.len() == 0);
                    assert(t[k] == ')');
                }
            }
        }
        if rd[0] == '/' {
            assert(d is Word);
            let w = d->Word_0;
            if w.len() > 1 {
                assert(t[j + 1] == w[1]);
            } else if j + 1 < t.len() {
                assert(k == j + 1);
                assert(is_delimiter(t[j + 1]));
            }
        }
        assert(!starts_comment(t, j));
        assert(skip_blank(t, i) == j);
        lemma_read_items(t, k, rest, trail);
        assert(trees(items) =~= seq![tree(d)] + trees(rest));
        match d {
            Doc::Word(w) => {
                lemma_bare_word(t, j, w, Seq::empty());
                assert(Seq::<char>::empty() + w =~= w);
                assert(t[j] != '(' && t[j] != '"' && t[j] != ')');
            },
            Doc::Text(x) => {
                assert(t[j] == '"');
                let ex = escaped(x);
                assert(t.subrange(j + 1, j + 1 + ex.len() as int) =~= ex) by {
                    assert forall|y: int| 0 <= y < ex.len() implies t.subrange(j + 1, j + 1 + ex.len() as int)[y] == ex[y] by {
                        assert(t[j + 1 + y] == rd[1 + y]);
                    }
                }
                assert(t[j + 1 + ex.len()] == rd[1 + ex.len() as int]);
                crate::ses::lemma_quoted_body_reads(t, x, j + 1, Seq::empty());
                assert(Seq::<char>::empty() + x =~= x);
                if x.len() > 0 {
                    crate::ses::lemma_escaped_front(x[0], x.drop_first());
                    assert(x =~= seq![x[0]] + x.drop_first());
                    assert(ex == escape_char(x[0]) + escaped(x.drop_first()));
                    assert(t[j + 1] == ex[0]);
                    assert(ex[0] == escape_char(x[0])[0]);
                } else {
                    assert(t[j + 1] == '"');
                }
                assert(!lone_quote(t, j));
            },
            Doc::Quote => {
                assert(lone_quote(t, j));
            },
            Doc::Group(children, ctrail) => {
                let inner = render_items(children) + ctrail;
                assert(rd =~= seq!['('] + inner + seq![')']);
                assert(t.subrange(j + 1, j + 1 + inner.len()) =~= inner) by {
                    assert forall|y: int| 0 <= y < inner.len() implies t.subrange(j + 1, j + 1 + inner.len())[y] == inner[y] by {
                        assert(t[j + 1 + y] == rd[1 + y]);
                    }
                }
                assert(t[j + 1 + inner.len()] == rd[1 + inner.len() as int]);
                lemma_read_items(t, j + 1, children, ctrail);
                lemma_space_end_at(t, j + 1 + inner.len());
                assert(!starts_comment(t, j + 1 + inner.len()));
                assert(skip_blank(t, j + 1 + inner.len()) == j + 1 + inner.len());
            },
        }
    }
}

proof fn lemma_space_end_at(t: Seq<char>, j: int)
    requires
        0 <= j < t.len(),
        !is_white_space(t[j]),
    ensures
        space_end(t, j) == j,
{
}

/// A list laid out on its own, followed by a blank run, reads back as its
/// tree.
pub proof fn lemma_read_doc(d: Doc, after: Seq<char>)
    requires
        doc_ok(d),
        d is Group,
        blank(after),
    ensures
        parse_text(render(d) + after) == Ok::<SexpView, Seq<char>>(tree(d)),
{
    reveal_with_fuel(items_ok, 2);
    let items = seq![(Seq::<char>::empty(), d)];
    assert(items.drop_first() =~= Seq::<(Seq<char>, Doc)>::empty());
    assert(render_items(items.drop_first()) == Seq::<char>::empty());
    assert(render_items(items) =~= render(d));
    assert(trees(items.drop_first()) == Seq::<SexpView>::empty());
    assert(trees(items) =~= seq![tree(d)]);
    assert(blank(Seq::<char>::empty()));
    assert(items_ok(items.drop_first(), after));
    assert(items_ok(items, after));
    let t = render(d) + after;
    assert(t.subrange(0, t.len() as int) =~= render_items(items) + after);
    lemma_read_items(t, 0, items, after);
}

// ─── laying out lines ─────────────────────────────────────────────────────────

/// Lines of layouts, each after the indent `ind` and ended by a newline.
pub open spec fn lines_of(ind: Seq<char>, ds: Seq<Doc>) -> Seq<char>
    decreases ds.len(),
{
    if ds.len() == 0 {
        Seq::empty()
    } else {
        lines_of(ind, ds.drop_last()) + ind + render(ds.last()) + seq!['\n']
    }
}

/// The same layouts as children of a list, each on a new line after `ind`.
pub open spec fn items_of(ind: Seq<char>, ds: Seq<Doc>) -> Seq<(Seq<char>, Doc)> {
    ds.map_values(|x: Doc| (seq!['\n'] + ind, x))
}

proof fn lemma_lines_items(ind: Seq<char>, ds: Seq<Doc>)
    ensures
        seq!['\n'] + lines_of(ind, ds) == render_items(items_of(ind, ds)) + seq!['\n'],
    decreases ds.len(),
{
    if ds.len() == 0 {
        assert(items_of(ind, ds) =~= Seq::<(Seq<char>, Doc)>::empty());
        assert(seq!['\n'] + lines_of(ind, ds) =~= render_items(items_of(ind, ds)) + seq!['\n']);
    } else {
        let front = ds.drop_last();
        let x = ds.last();
        lemma_lines_items(ind, front);
        assert(items_of(ind, ds) =~= items_of(ind, front) + seq![(seq!['\n'] + ind, x)]);
        lemma_render_items_concat(items_of(ind, front), seq![(seq!['\n'] + ind, x)]);
        let one = seq![(seq!['\n'] + ind, x)];
        assert(one.drop_first() =~= Seq::<(Seq<char>, Doc)>::empty());
        assert(render_items(Seq::<(Seq<char>, Doc)>::empty()) == Seq::<char>::empty());
        assert(render_items(one.drop_first()) == Seq::<char>::empty());
        assert(one[0] == (seq!['\n'] + ind, x));
        assert(render_items(one) == one[0].0 + render(one[0].1) + render_items(one.drop_first()));
        assert(render_items(one) =~= seq!['\n'] + ind + render(x));
        let l = lines_of(ind, front);
        let a = render_items(items_of(ind, front));
        assert(ds.drop_last() == front);
        assert(lines_of(ind, ds) == l + ind + render(x) + seq!['\n']);
        assert(render_items(items_of(ind, ds)) == a + render_items(one));
        assert(seq!['\n'] + l == a + seq!['\n']);
        assert(seq!['\n'] + lines_of(ind, ds) =~= (seq!['\n'] + l) + ind + render(x) + seq!['\n']);
        assert((a + seq!['\n']) + ind + render(x) + seq!['\n'] =~= a + (seq!['\n'] + ind + render(x)) + seq!['\n']);
        assert(seq!['\n'] + lines_of(ind, ds) =~= render_items(items_of(ind, ds)) + seq!['\n']);
    }
}

proof fn lemma_lines_concat(ind: Seq<char>, a: Seq<Doc>, b: Seq<Doc>)
    ensures
        lines_of(ind, a + b) == lines_of(ind, a) + lines_of(ind, b),
    decreases b.len(),
{
    if b.len() == 0 {
        assert(a + b =~= a);
        assert(lines_of(ind, a) + lines_of(ind, b) =~= lines_of(ind, a));
    } else {
        lemma_lines_concat(ind, a, b.drop_last());
        assert((a + b).drop_last() =~= a + b.drop_last());
        assert((a + b).last() == b.last());
        assert(lines_of(ind, a + b) =~= lines_of(ind, a) + lines_of(ind, b));
    }
}

/// The children of a list are laid out well when each is, each after a
/// blank run, with a blank run before a child that follows a bare token or
/// lone quote.
pub open spec fn items_good(items: Seq<(Seq<char>, Doc)>) -> bool {
    forall|k: int|
        0 <= k < items.len() ==> blank((#[trigger] items[k]).0) && doc_ok(items[k].1) && (needs_gap(
            items[k].1,
        ) && k + 1 < items.len() ==> items[k + 1].0.len() > 0)
}

proof fn lemma_items_good(items: Seq<(Seq<char>, Doc)>, trail: Seq<char>)
    requires
        items_good(items),
        blank(trail),
    ensures
        items_ok(items, trail),
    decreases items.len(),
{
    if items.len() > 0 {
        let rest = items.drop_first();
        assert forall|k: int| 0 <= k < rest.len() implies blank((#[trigger] rest[k]).0) && doc_ok(rest[k].1)
            && (needs_gap(rest[k].1) && k + 1 < rest.len() ==> rest[k + 1].0.len() > 0) by {
            assert(rest[k] == items[k + 1]);
            if k + 1 < rest.len() {
                assert(rest[k + 1] == items[k + 2]);
            }
        }
        lemma_items_good(rest, trail);
        assert(blank(items[0].0) && doc_ok(items[0].1));
        if needs_gap(items[0].1) && items.len() > 1 {
            assert(items[1].0.len() > 0);
        }
    }
}

// ─── the layout of a session ──────────────────────────────────────────────────

/// A name as the session writes it: in quotes where it must be, bare
/// otherwise.
pub open spec fn token_doc(x: Seq<char>) -> Doc {
    if must_quote(x) {
        Doc::Text(x)
    } else {
        Doc::Word(x)
    }
}

/// A name that reads back as written: in quotes, it does not start with
/// white space or `)`; bare, it does not start a comment.
pub open spec fn token_reads(x: Seq<char>) -> bool {
    if must_quote(x) {
        text_ok(x)
    } else {
        x[0] != '#' && !(x[0] == '/' && x.len() > 1 && x[1] == '/')
    }
}

proof fn lemma_token(x: Seq<char>)
    ensures
        render(token_doc(x)) == quoted_of(x),
        tree(token_doc(x)) == SexpView::Atom(x),
        token_reads(x) ==> doc_ok(token_doc(x)),
{
    if !must_quote(x) {
        assert(x.len() > 0);
        assert forall|i: int| 0 <= i < x.len() implies !is_delimiter(#[trigger] x[i]) && x[i] != '"' by {
            if is_delimiter(x[i]) || x[i] == '"' {
                assert(is_white_space(x[i]) || x[i] == '(' || x[i] == ')' || x[i] == '"');
            }
        }
    }
}

proof fn lemma_decimal_word(n: int)
    ensures
        word_ok(decimal_of(n)),
{
    let d = decimal_of(n);
    lemma_digits_chars(if n < 0 { (-n) as nat } else { n as nat });
    if n < 0 {
        assert forall|i: int| 0 <= i < d.len() implies !is_delimiter(#[trigger] d[i]) && d[i] != '"' by {
            if i > 0 {
                assert(d[i] == digits_of((-n) as nat)[i - 1]);
            }
        }
    }
}

proof fn lemma_digits_chars(n: nat)
    ensures
        digits_of(n).len() > 0,
        forall|i: int| 0 <= i < digits_of(n).len() ==> 48 <= (#[trigger] digits_of(n)[i]) as u32 <= 57,
    decreases n,
{
    if n >= 10 {
        lemma_digits_chars(n / 10);
        let d = digits_of(n);
        assert forall|i: int| 0 <= i < d.len() implies 48 <= (#[trigger] d[i]) as u32 <= 57 by {
            if i < d.len() - 1 {
                assert(d[i] == digits_of(n / 10)[i]);
            }
        }
    }
}

pub open spec fn sp() -> Seq<char> {
    seq![' ']
}

pub open spec fn ind(n: nat) -> Seq<char> {
    Seq::new(n, |i: int| ' ')
}

pub open spec fn point_items(p: Seq<(i64, i64)>) -> Seq<(Seq<char>, Doc)>
    decreases p.len(),
{
    if p.len() == 0 {
        Seq::empty()
    } else {
        point_items(p.drop_last()) + seq![
            (sp(), Doc::Word(decimal_of(p.last().0 as int))),
            (sp(), Doc::Word(decimal_of(p.last().1 as int))),
        ]
    }
}

pub open spec fn path_doc(w: RoutedWire) -> Doc {
    Doc::Group(
        seq![
            (Seq::empty(), Doc::Word("path"@)),
            (sp(), token_doc(w.layer@)),
            (sp(), Doc::Word(decimal_of(w.width as int))),
        ] + point_items(w.points@),
        Seq::empty(),
    )
}

pub open spec fn wire_doc(w: RoutedWire) -> Doc {
    Doc::Group(seq![(Seq::empty(), Doc::Word("wire"@)), (sp(), path_doc(w))], Seq::empty())
}

pub open spec fn via_doc(v: RoutedVia) -> Doc {
    Doc::Group(
        seq![
            (Seq::empty(), Doc::Word("via"@)),
            (sp(), token_doc(v.padstack_name@)),
            (sp(), Doc::Word(decimal_of(v.x as int))),
            (sp(), Doc::Word(decimal_of(v.y as int))),
        ],
        Seq::empty(),
    )
}

pub open spec fn wire_docs(ws: Seq<RoutedWire>, name: Seq<char>, n: int) -> Seq<Doc>
    decreases n,
{
    if n <= 0 {
        Seq::empty()
    } else {
        wire_docs(ws, name, n - 1) + if ws[n - 1].net_name@ == name && ws[n - 1].points@.len() >= 2 {
            seq![wire_doc(ws[n - 1])]
        } else {
            Seq::empty()
        }
    }
}

pub open spec fn via_docs(vs: Seq<RoutedVia>, name: Seq<char>, n: int) -> Seq<Doc>
    decreases n,
{
    if n <= 0 {
        Seq::empty()
    } else {
        via_docs(vs, name, n - 1) + if vs[n - 1].net_name@ == name {
            seq![via_doc(vs[n - 1])]
        } else {
            Seq::empty()
        }
    }
}

pub open spec fn net_doc(r: RoutingResult, name: Seq<char>) -> Doc {
    Doc::Group(
        seq![(Seq::empty(), Doc::Word("net"@)), (sp(), token_doc(name))] + items_of(
            ind(8),
            wire_docs(r.wires@, name, r.wires@.len() as int) + via_docs(r.vias@, name, r.vias@.len() as int),
        ),
        seq!['\n'] + ind(6),
    )
}

pub open spec fn net_docs(d: DesignView, r: RoutingResult, n: int) -> Seq<Doc>
    decreases n,
{
    if n <= 0 {
        Seq::empty()
    } else {
        net_docs(d, r, n - 1) + if net_used(r, d.nets[n - 1].name) {
            seq![net_doc(r, d.nets[n - 1].name)]
        } else {
            Seq::empty()
        }
    }
}

pub open spec fn network_doc(d: DesignView, r: RoutingResult) -> Doc {
    Doc::Group(
        seq![(Seq::empty(), Doc::Word("network_out"@))] + items_of(ind(6), net_docs(d, r, d.nets.len() as int)),
        seq!['\n'] + ind(4),
    )
}

pub open spec fn pair_doc(key: Seq<char>, value: Doc) -> Doc {
    Doc::Group(seq![(Seq::empty(), Doc::Word(key)), (sp(), value)], Seq::empty())
}

pub open spec fn parser_doc() -> Doc {
    Doc::Group(
        seq![(Seq::empty(), Doc::Word("parser"@))] + items_of(
            ind(6),
            seq![
                pair_doc("string_quote"@, Doc::Quote),
                pair_doc("space_in_quoted_tokens"@, Doc::Word("on"@)),
                pair_doc("host_cad"@, Doc::Text("openrouting"@)),
                pair_doc("host_version"@, Doc::Text("0.1.0"@)),
            ],
        ),
        seq!['\n'] + ind(4),
    )
}

pub open spec fn resolution_doc(d: DesignView) -> Doc {
    Doc::Group(
        seq![
            (Seq::empty(), Doc::Word("resolution"@)),
            (sp(), Doc::Word(d.resolution.unit)),
            (sp(), Doc::Word(decimal_of(d.resolution.value as int))),
        ],
        Seq::empty(),
    )
}

pub open spec fn routes_doc(d: DesignView, r: RoutingResult) -> Doc {
    Doc::Group(
        seq![(Seq::empty(), Doc::Word("routes"@))] + items_of(
            ind(4),
            seq![resolution_doc(d), parser_doc(), network_doc(d, r)],
        ),
        seq!['\n'] + ind(2),
    )
}

/// The layout of a session: the tree it stands for is what a reader gets
/// back from the session text.
pub open spec fn session_doc(d: DesignView, r: RoutingResult) -> Doc {
    Doc::Group(
        seq![(Seq::empty(), Doc::Word("session"@)), (sp(), token_doc(d.name))] + items_of(
            ind(2),
            seq![pair_doc("base_design"@, token_doc(d.name + ".dsn"@)), routes_doc(d, r)],
        ),
        seq!['\n'],
    )
}

proof fn lemma_render_cons(x: (Seq<char>, Doc), rest: Seq<(Seq<char>, Doc)>)
    ensures
        render_items(seq![x] + rest) == x.0 + render(x.1) + render_items(rest),
        trees(seq![x] + rest) == seq![tree(x.1)] + trees(rest),
{
    let one = seq![x];
    assert((one + rest).drop_first() =~= rest);
    assert((one + rest)[0] == x);
}

proof fn lemma_render_one(x: (Seq<char>, Doc))
    ensures
        render_items(seq![x]) == x.0 + render(x.1),
        trees(seq![x]) == seq![tree(x.1)],
{
    lemma_render_cons(x, Seq::empty());
    assert(seq![x] + Seq::<(Seq<char>, Doc)>::empty() =~= seq![x]);
    assert(x.0 + render(x.1) + Seq::<char>::empty() =~= x.0 + render(x.1));
    assert(seq![tree(x.1)] + Seq::<SexpView>::empty() =~= seq![tree(x.1)]);
}

proof fn lemma_render_two(a: (Seq<char>, Doc), b: (Seq<char>, Doc))
    ensures
        render_items(seq![a, b]) == a.0 + render(a.1) + b.0 + render(b.1),
{
    assert(seq![a, b] =~= seq![a] + seq![b]);
    lemma_render_cons(a, seq![b]);
    lemma_render_one(b);
    assert(a.0 + render(a.1) + (b.0 + render(b.1)) =~= a.0 + render(a.1) + b.0 + render(b.1));
}

proof fn lemma_render_pair(key: Seq<char>, value: Doc)
    ensures
        render(pair_doc(key, value)) == seq!['('] + key + sp() + render(value) + seq![')'],
{
    lemma_render_two((Seq::<char>::empty(), Doc::Word(key)), (sp(), value));
    assert(Seq::<char>::empty() + key =~= key);
    assert(seq!['('] + (key + sp() + render(value)) + Seq::<char>::empty() + seq![')'] =~= seq!['('] + key + sp() + render(value) + seq![')']);
    assert(Seq::<char>::empty() + render(Doc::Word(key)) + sp() + render(value) =~= key + sp() + render(value));
}

proof fn lemma_points(p: Seq<(i64, i64)>)
    ensures
        render_items(point_items(p)) == points_text(p),
    decreases p.len(),
{
    reveal_strlit(" ");
    if p.len() == 0 {
        assert(render_items(Seq::<(Seq<char>, Doc)>::empty()) == Seq::<char>::empty());
    } else {
        let front = p.drop_last();
        lemma_points(front);
        let a = (sp(), Doc::Word(decimal_of(p.last().0 as int)));
        let b = (sp(), Doc::Word(decimal_of(p.last().1 as int)));
        lemma_render_items_concat(point_items(front), seq![a, b]);
        lemma_render_two(a, b);
        assert(" "@ == sp());
        assert(render_items(point_items(p)) =~= points_text(p));
    }
}

proof fn lemma_path_render(w: RoutedWire)
    ensures
        render(path_doc(w)) == seq!['('] + "path"@ + sp() + quoted_of(w.layer@) + sp() + decimal_of(w.width as int)
            + points_text(w.points@) + seq![')'],
{
    let a0 = (Seq::<char>::empty(), Doc::Word("path"@));
    let a1 = (sp(), token_doc(w.layer@));
    let a2 = (sp(), Doc::Word(decimal_of(w.width as int)));
    let head = seq![a0, a1, a2];
    lemma_render_items_concat(head, point_items(w.points@));
    assert(head =~= seq![a0] + seq![a1, a2]);
    lemma_render_cons(a0, seq![a1, a2]);
    lemma_render_two(a1, a2);
    lemma_token(w.layer@);
    lemma_points(w.points@);
    assert(render(path_doc(w)) =~= seq!['('] + "path"@ + sp() + quoted_of(w.layer@) + sp() + decimal_of(w.width as int)
        + points_text(w.points@) + seq![')']);
}

proof fn lemma_wire_line(w: RoutedWire)
    ensures
        wire_line(w) == ind(8) + render(wire_doc(w)) + seq!['\n'],
{
    lemma_path_render(w);
    lemma_render_two((Seq::<char>::empty(), Doc::Word("wire"@)), (sp(), path_doc(w)));
    reveal_strlit("        (wire (path ");
    reveal_strlit(" ");
    reveal_strlit("))\n");
    reveal_strlit("path");
    reveal_strlit("wire");
    assert("        (wire (path "@ =~= ind(8) + seq!['('] + "wire"@ + sp() + seq!['('] + "path"@ + sp());
    assert("))\n"@ =~= seq![')', ')', '\n']);
    assert(render(wire_doc(w)) =~= seq!['('] + "wire"@ + sp() + render(path_doc(w)) + seq![')']);
    assert(wire_line(w) =~= ind(8) + render(wire_doc(w)) + seq!['\n']);
}

#[verifier::rlimit(80)]
proof fn lemma_via_line(v: RoutedVia)
    ensures
        via_line(v) == ind(8) + render(via_doc(v)) + seq!['\n'],
{
    let a0 = (Seq::<char>::empty(), Doc::Word("via"@));
    let a1 = (sp(), token_doc(v.padstack_name@));
    let a2 = (sp(), Doc::Word(decimal_of(v.x as int)));
    let a3 = (sp(), Doc::Word(decimal_of(v.y as int)));
    assert(seq![a0, a1, a2, a3] =~= seq![a0] + (seq![a1] + seq![a2, a3]));
    lemma_render_cons(a0, seq![a1] + seq![a2, a3]);
    lemma_render_cons(a1, seq![a2, a3]);
    lemma_render_two(a2, a3);
    lemma_token(v.padstack_name@);
    reveal_strlit("        (via ");
    reveal_strlit(" ");
    reveal_strlit(")\n");
    reveal_strlit("via");
    assert("        (via "@ =~= ind(8) + seq!['('] + "via"@ + sp());
    assert(render(via_doc(v)) =~= seq!['('] + "via"@ + sp() + quoted_of(v.padstack_name@) + sp() + decimal_of(v.x as int) + sp() + decimal_of(v.y as int) + seq![')']);
    assert(via_line(v) =~= ind(8) + render(via_doc(v)) + seq!['\n']);
}

proof fn lemma_lines_one(i: Seq<char>, x: Doc)
    ensures
        lines_of(i, seq![x]) == i + render(x) + seq!['\n'],
{
    assert(seq![x].drop_last() =~= Seq::<Doc>::empty());
    assert(lines_of(i, Seq::<Doc>::empty()) == Seq::<char>::empty());
    assert(lines_of(i, seq![x]) =~= i + render(x) + seq!['\n']);
}

proof fn lemma_wire_lines(ws: Seq<RoutedWire>, name: Seq<char>, n: int)
    requires
        0 <= n <= ws.len(),
    ensures
        wire_lines(ws, name, n) == lines_of(ind(8), wire_docs(ws, name, n)),
    decreases n,
{
    if n == 0 {
        assert(lines_of(ind(8), Seq::<Doc>::empty()) == Seq::<char>::empty());
    } else {
        lemma_wire_lines(ws, name, n - 1);
        let w = ws[n - 1];
        if w.net_name@ == name && w.points@.len() >= 2 {
            lemma_lines_concat(ind(8), wire_docs(ws, name, n - 1), seq![wire_doc(w)]);
            lemma_lines_one(ind(8), wire_doc(w));
            lemma_wire_line(w);
            assert(wire_lines(ws, name, n) =~= lines_of(ind(8), wire_docs(ws, name, n)));
        } else {
            assert(wire_docs(ws, name, n) =~= wire_docs(ws, name, n - 1));
            assert(wire_lines(ws, name, n) =~= wire_lines(ws, name, n - 1));
        }
    }
}

proof fn lemma_via_lines(vs: Seq<RoutedVia>, name: Seq<char>, n: int)
    requires
        0 <= n <= vs.len(),
    ensures
        via_lines(vs, name, n) == lines_of(ind(8), via_docs(vs, name, n)),
    decreases n,
{
    if n == 0 {
        assert(lines_of(ind(8), Seq::<Doc>::empty()) == Seq::<char>::empty());
    } else {
        lemma_via_lines(vs, name, n - 1);
        let v = vs[n - 1];
        if v.net_name@ == name {
            lemma_lines_concat(ind(8), via_docs(vs, name, n - 1), seq![via_doc(v)]);
            lemma_lines_one(ind(8), via_doc(v));
            lemma_via_line(v);
            assert(via_lines(vs, name, n) =~= lines_of(ind(8), via_docs(vs, name, n)));
        } else {
            assert(via_docs(vs, name, n) =~= via_docs(vs, name, n - 1));
            assert(via_lines(vs, name, n) =~= via_lines(vs, name, n - 1));
        }
    }
}

#[verifier::rlimit(80)]
proof fn lemma_net_block(r: RoutingResult, name: Seq<char>)
    requires
        net_used(r, name),
    ensures
        net_block(r, name) == ind(6) + render(net_doc(r, name)) + seq!['\n'],
{
    let wd = wire_docs(r.wires@, name, r.wires@.len() as int);
    let vd = via_docs(r.vias@, name, r.vias@.len() as int);
    let wl = wire_lines(r.wires@, name, r.wires@.len() as int);
    let vl = via_lines(r.vias@, name, r.vias@.len() as int);
    lemma_wire_lines(r.wires@, name, r.wires@.len() as int);
    lemma_via_lines(r.vias@, name, r.vias@.len() as int);
    lemma_lines_concat(ind(8), wd, vd);
    lemma_lines_items(ind(8), wd + vd);
    let items = items_of(ind(8), wd + vd);
    let ri = render_items(items);
    let ll = lines_of(ind(8), wd + vd);
    assert(wl + vl == ll);
    assert(seq!['\n'] + ll == ri + seq!['\n']);
    let a0 = (Seq::<char>::empty(), Doc::Word("net"@));
    let a1 = (sp(), token_doc(name));
    lemma_render_items_concat(seq![a0, a1], items);
    lemma_render_two(a0, a1);
    lemma_token(name);
    let q = quoted_of(name);
    let head = render_items(seq![a0, a1]);
    assert(head =~= "net"@ + sp() + q);
    let trail = seq!['\n'] + ind(6);
    assert(render(net_doc(r, name)) == seq!['('] + (head + ri) + trail + seq![')']);
    reveal_strlit("      (net ");
    reveal_strlit("\n");
    reveal_strlit("      )\n");
    reveal_strlit("net");
    let open_lit = "      (net "@;
    let close_lit = "      )\n"@;
    assert(open_lit =~= ind(6) + seq!['('] + "net"@ + sp());
    assert(close_lit =~= ind(6) + seq![')', '\n']);
    assert("\n"@ == seq!['\n']);
    let nb = net_block(r, name);
    assert(nb == open_lit + q + "\n"@ + wl + vl + close_lit);
    assert(nb =~= open_lit + q + (seq!['\n'] + ll) + close_lit);
    assert(nb =~= open_lit + q + (ri + seq!['\n']) + close_lit);
    assert(nb =~= ind(6) + (seq!['('] + (head + ri) + trail + seq![')']) + seq!['\n']);
}

proof fn lemma_net_blocks(d: DesignView, r: RoutingResult, n: int)
    requires
        0 <= n <= d.nets.len(),
    ensures
        net_blocks(d, r, n) == lines_of(ind(6), net_docs(d, r, n)),
    decreases n,
{
    if n == 0 {
        assert(lines_of(ind(6), Seq::<Doc>::empty()) == Seq::<char>::empty());
    } else {
        lemma_net_blocks(d, r, n - 1);
        let name = d.nets[n - 1].name;
        if net_used(r, name) {
            lemma_lines_concat(ind(6), net_docs(d, r, n - 1), seq![net_doc(r, name)]);
            lemma_lines_one(ind(6), net_doc(r, name));
            lemma_net_block(r, name);
            assert(net_blocks(d, r, n) =~= lines_of(ind(6), net_docs(d, r, n)));
        } else {
            assert(net_docs(d, r, n) =~= net_docs(d, r, n - 1));
            assert(net_block(r, name) == Seq::<char>::empty());
            assert(net_blocks(d, r, n) =~= net_blocks(d, r, n - 1));
        }
    }
}


/// A list of a head and lines: its text, after the indent `ij` and
/// followed by a newline, is the head, then each line, then `)` on a line
/// of its own.
proof fn lemma_block(head: Seq<(Seq<char>, Doc)>, ik: Seq<char>, ds: Seq<Doc>, ij: Seq<char>)
    ensures
        ij + render(Doc::Group(head + items_of(ik, ds), seq!['\n'] + ij)) + seq!['\n'] == ij + seq!['(']
            + render_items(head) + seq!['\n'] + lines_of(ik, ds) + ij + seq![')', '\n'],
{
    lemma_render_items_concat(head, items_of(ik, ds));
    lemma_lines_items(ik, ds);
    let h = render_items(head);
    let ri = render_items(items_of(ik, ds));
    let l = lines_of(ik, ds);
    assert(seq!['\n'] + l == ri + seq!['\n']);
    assert(render(Doc::Group(head + items_of(ik, ds), seq!['\n'] + ij)) == seq!['('] + (h + ri) + (seq![
        '\n',
    ] + ij) + seq![')']);
    assert(ij + (seq!['('] + (h + ri) + (seq!['\n'] + ij) + seq![')']) + seq!['\n'] =~= ij + seq!['('] + h
        + (ri + seq!['\n']) + ij + seq![')', '\n']);
    assert(ij + seq!['('] + h + (seq!['\n'] + l) + ij + seq![')', '\n'] =~= ij + seq!['('] + h + seq!['\n']
        + l + ij + seq![')', '\n']);
}

proof fn lemma_lines_push(i: Seq<char>, ds: Seq<Doc>, x: Doc)
    ensures
        lines_of(i, ds.push(x)) == lines_of(i, ds) + i + render(x) + seq!['\n'],
{
    assert(ds.push(x).drop_last() =~= ds);
    assert(ds.push(x).last() == x);
}

proof fn lemma_escaped_plain(s: Seq<char>)
    requires
        forall|i: int| 0 <= i < s.len() ==> #[trigger] s[i] != '\\' && s[i] != '"',
    ensures
        escaped(s) == s,
    decreases s.len(),
{
    if s.len() > 0 {
        lemma_escaped_plain(s.drop_last());
        assert(s.drop_last().push(s.last()) =~= s);
    }
}

proof fn lemma_pair_line(i: Seq<char>, key: Seq<char>, value: Doc)
    ensures
        i + render(pair_doc(key, value)) + seq!['\n'] == i + seq!['('] + key + sp() + render(value) + seq![
            ')',
            '\n',
        ],
{
    lemma_render_pair(key, value);
    assert(i + (seq!['('] + key + sp() + render(value) + seq![')']) + seq!['\n'] =~= i + seq!['('] + key + sp()
        + render(value) + seq![')', '\n']);
}

pub open spec fn parser_text() -> Seq<char> {
    "    (parser\n"@ + "      (string_quote \")\n"@ + "      (space_in_quoted_tokens on)\n"@
        + "      (host_cad \"openrouting\")\n"@ + "      (host_version \"0.1.0\")\n"@ + "    )\n"@
}

#[verifier::rlimit(60)]
proof fn lemma_parser_lines()
    ensures
        ind(4) + render(parser_doc()) + seq!['\n'] == parser_text(),
{
    let p0 = pair_doc("string_quote"@, Doc::Quote);
    let p1 = pair_doc("space_in_quoted_tokens"@, Doc::Word("on"@));
    let p2 = pair_doc("host_cad"@, Doc::Text("openrouting"@));
    let p3 = pair_doc("host_version"@, Doc::Text("0.1.0"@));
    let ds = seq![p0, p1, p2, p3];
    let head = seq![(Seq::<char>::empty(), Doc::Word("parser"@))];
    lemma_block(head, ind(6), ds, ind(4));
    lemma_render_one((Seq::<char>::empty(), Doc::Word("parser"@)));
    assert(ds =~= Seq::<Doc>::empty().push(p0).push(p1).push(p2).push(p3));
    lemma_lines_push(ind(6), Seq::<Doc>::empty(), p0);
    lemma_lines_push(ind(6), seq![p0], p1);
    lemma_lines_push(ind(6), seq![p0].push(p1), p2);
    lemma_lines_push(ind(6), seq![p0].push(p1).push(p2), p3);
    assert(seq![p0] =~= Seq::<Doc>::empty().push(p0));
    assert(lines_of(ind(6), Seq::<Doc>::empty()) == Seq::<char>::empty());
    lemma_pair_line(ind(6), "string_quote"@, Doc::Quote);
    lemma_pair_line(ind(6), "space_in_quoted_tokens"@, Doc::Word("on"@));
    lemma_pair_line(ind(6), "host_cad"@, Doc::Text("openrouting"@));
    lemma_pair_line(ind(6), "host_version"@, Doc::Text("0.1.0"@));
    reveal_strlit("openrouting");
    reveal_strlit("0.1.0");
    lemma_escaped_plain("openrouting"@);
    lemma_escaped_plain("0.1.0"@);
    reveal_strlit("parser");
    reveal_strlit("string_quote");
    reveal_strlit("space_in_quoted_tokens");
    reveal_strlit("on");
    reveal_strlit("host_cad");
    reveal_strlit("host_version");
    reveal_strlit("    (parser\n");
    reveal_strlit("      (string_quote \")\n");
    reveal_strlit("      (space_in_quoted_tokens on)\n");
    reveal_strlit("      (host_cad \"openrouting\")\n");
    reveal_strlit("      (host_version \"0.1.0\")\n");
    reveal_strlit("    )\n");
    let l0 = ind(6) + render(p0) + seq!['\n'];
    let l1 = ind(6) + render(p1) + seq!['\n'];
    let l2 = ind(6) + render(p2) + seq!['\n'];
    let l3 = ind(6) + render(p3) + seq!['\n'];
    assert(l0 == "      (string_quote \")\n"@) by {
        assert(l0 =~= "      (string_quote \")\n"@);
    }
    assert(l1 == "      (space_in_quoted_tokens on)\n"@) by {
        assert(l1 =~= "      (space_in_quoted_tokens on)\n"@);
    }
    assert(l2 == "      (host_cad \"openrouting\")\n"@) by {
        assert(l2 =~= "      (host_cad \"openrouting\")\n"@);
    }
    assert(l3 == "      (host_version \"0.1.0\")\n"@) by {
        assert(l3 =~= "      (host_version \"0.1.0\")\n"@);
    }
    assert(lines_of(ind(6), ds) =~= l0 + l1 + l2 + l3);
    assert(ind(4) + seq!['('] + "parser"@ + seq!['\n'] =~= "    (parser\n"@);
    assert(ind(4) + seq![')', '\n'] =~= "    )\n"@);
    assert(ind(4) + render(parser_doc()) + seq!['\n'] =~= parser_text());
}


proof fn lemma_resolution_line(d: DesignView)
    ensures
        ind(4) + render(resolution_doc(d)) + seq!['\n'] == "    (resolution "@ + d.resolution.unit + " "@
            + decimal_of(d.resolution.value as int) + ")\n"@,
{
    let a0 = (Seq::<char>::empty(), Doc::Word("resolution"@));
    let a1 = (sp(), Doc::Word(d.resolution.unit));
    let a2 = (sp(), Doc::Word(decimal_of(d.resolution.value as int)));
    assert(seq![a0, a1, a2] =~= seq![a0] + seq![a1, a2]);
    lemma_render_cons(a0, seq![a1, a2]);
    lemma_render_two(a1, a2);
    reveal_strlit("resolution");
    reveal_strlit("    (resolution ");
    reveal_strlit(" ");
    reveal_strlit(")\n");
    assert(ind(4) + seq!['('] + "resolution"@ + sp() =~= "    (resolution "@);
    assert(" "@ =~= sp());
    assert(ind(4) + render(resolution_doc(d)) + seq!['\n'] =~= "    (resolution "@ + d.resolution.unit + " "@
        + decimal_of(d.resolution.value as int) + ")\n"@);
}

proof fn lemma_network_lines(d: DesignView, r: RoutingResult)
    ensures
        ind(4) + render(network_doc(d, r)) + seq!['\n'] == "    (network_out\n"@ + net_blocks(
            d,
            r,
            d.nets.len() as int,
        ) + "    )\n"@,
{
    let nd = net_docs(d, r, d.nets.len() as int);
    let head = seq![(Seq::<char>::empty(), Doc::Word("network_out"@))];
    lemma_block(head, ind(6), nd, ind(4));
    lemma_render_one((Seq::<char>::empty(), Doc::Word("network_out"@)));
    lemma_net_blocks(d, r, d.nets.len() as int);
    reveal_strlit("network_out");
    reveal_strlit("    (network_out\n");
    reveal_strlit("    )\n");
    assert(ind(4) + seq!['('] + "network_out"@ + seq!['\n'] =~= "    (network_out\n"@);
    assert(ind(4) + seq![')', '\n'] =~= "    )\n"@);
    assert(ind(4) + render(network_doc(d, r)) + seq!['\n'] =~= "    (network_out\n"@ + net_blocks(
        d,
        r,
        d.nets.len() as int,
    ) + "    )\n"@);
}

#[verifier::rlimit(40)]
proof fn lemma_routes_lines(d: DesignView, r: RoutingResult)
    ensures
        ind(2) + render(routes_doc(d, r)) + seq!['\n'] == "  (routes\n"@ + (ind(4) + render(resolution_doc(d))
            + seq!['\n']) + (ind(4) + render(parser_doc()) + seq!['\n']) + (ind(4) + render(
            network_doc(d, r),
        ) + seq!['\n']) + "  )\n"@,
{
    let x0 = resolution_doc(d);
    let x1 = parser_doc();
    let x2 = network_doc(d, r);
    let ds = seq![x0, x1, x2];
    let head = seq![(Seq::<char>::empty(), Doc::Word("routes"@))];
    lemma_block(head, ind(4), ds, ind(2));
    lemma_render_one((Seq::<char>::empty(), Doc::Word("routes"@)));
    assert(ds =~= Seq::<Doc>::empty().push(x0).push(x1).push(x2));
    assert(seq![x0] =~= Seq::<Doc>::empty().push(x0));
    lemma_lines_push(ind(4), Seq::<Doc>::empty(), x0);
    lemma_lines_push(ind(4), seq![x0], x1);
    lemma_lines_push(ind(4), seq![x0].push(x1), x2);
    assert(lines_of(ind(4), Seq::<Doc>::empty()) == Seq::<char>::empty());
    reveal_strlit("routes");
    reveal_strlit("  (routes\n");
    reveal_strlit("  )\n");
    assert(ind(2) + seq!['('] + "routes"@ + seq!['\n'] =~= "  (routes\n"@);
    assert(ind(2) + seq![')', '\n'] =~= "  )\n"@);
    assert(lines_of(ind(4), ds) =~= (ind(4) + render(x0) + seq!['\n']) + (ind(4) + render(x1) + seq!['\n']) + (
    ind(4) + render(x2) + seq!['\n']));
    assert(ind(2) + render(routes_doc(d, r)) + seq!['\n'] =~= "  (routes\n"@ + (ind(4) + render(x0) + seq![
        '\n',
    ]) + (ind(4) + render(x1) + seq!['\n']) + (ind(4) + render(x2) + seq!['\n']) + "  )\n"@);
}

pub open spec fn routes_text(d: DesignView, r: RoutingResult) -> Seq<char> {
    "  (routes\n"@ + ("    (resolution "@ + d.resolution.unit + " "@ + decimal_of(d.resolution.value as int)
        + ")\n"@) + parser_text() + ("    (network_out\n"@ + net_blocks(d, r, d.nets.len() as int)
        + "    )\n"@) + "  )\n"@
}

proof fn lemma_routes_text(d: DesignView, r: RoutingResult)
    ensures
        ind(2) + render(routes_doc(d, r)) + seq!['\n'] == routes_text(d, r),
{
    lemma_routes_lines(d, r);
    lemma_resolution_line(d);
    lemma_parser_lines();
    lemma_network_lines(d, r);
}

proof fn lemma_session_lines(d: DesignView, r: RoutingResult)
    ensures
        lines_of(ind(2), seq![pair_doc("base_design"@, token_doc(d.name + ".dsn"@)), routes_doc(d, r)])
            == "  (base_design "@ + quoted_of(d.name + ".dsn"@) + ")\n"@ + routes_text(d, r),
{
    let b = pair_doc("base_design"@, token_doc(d.name + ".dsn"@));
    let rt = routes_doc(d, r);
    let ds = seq![b, rt];
    assert(ds =~= seq![b].push(rt));
    assert(seq![b] =~= Seq::<Doc>::empty().push(b));
    lemma_lines_push(ind(2), Seq::<Doc>::empty(), b);
    lemma_lines_push(ind(2), seq![b], rt);
    assert(lines_of(ind(2), Seq::<Doc>::empty()) == Seq::<char>::empty());
    lemma_routes_text(d, r);
    let base = "  (base_design "@ + quoted_of(d.name + ".dsn"@) + ")\n"@;
    assert(ind(2) + render(b) + seq!['\n'] == base) by {
        lemma_pair_line(ind(2), "base_design"@, token_doc(d.name + ".dsn"@));
        lemma_token(d.name + ".dsn"@);
        reveal_strlit("base_design");
        reveal_strlit("  (base_design ");
        reveal_strlit(")\n");
        assert(ind(2) + seq!['('] + "base_design"@ + sp() =~= "  (base_design "@);
        assert(ind(2) + render(b) + seq!['\n'] =~= base);
    }
    assert(lines_of(ind(2), ds) =~= base + routes_text(d, r));
}

proof fn lemma_session_layout(d: DesignView, r: RoutingResult)
    ensures
        render(session_doc(d, r)) + seq!['\n'] == seq!['('] + "session"@ + sp() + quoted_of(d.name) + seq!['\n']
            + ("  (base_design "@ + quoted_of(d.name + ".dsn"@) + ")\n"@ + routes_text(d, r)) + seq![')', '\n'],
{
    let e = Seq::<char>::empty();
    let b = pair_doc("base_design"@, token_doc(d.name + ".dsn"@));
    let rt = routes_doc(d, r);
    let ds = seq![b, rt];
    let h0 = (e, Doc::Word("session"@));
    let h1 = (sp(), token_doc(d.name));
    let head = seq![h0, h1];
    lemma_block(head, ind(2), ds, e);
    assert(seq!['\n'] + e =~= seq!['\n']);
    let qn = quoted_of(d.name);
    let rest = "  (base_design "@ + quoted_of(d.name + ".dsn"@) + ")\n"@ + routes_text(d, r);
    lemma_session_lines(d, r);
    assert(render_items(head) == "session"@ + sp() + qn) by {
        lemma_render_two(h0, h1);
        lemma_token(d.name);
        assert(render_items(head) =~= "session"@ + sp() + qn);
    }
    let big = render(session_doc(d, r));
    assert(e + big + seq!['\n'] == e + seq!['('] + ("session"@ + sp() + qn) + seq!['\n'] + rest + e + seq![
        ')',
        '\n',
    ]);
    assert(big + seq!['\n'] =~= seq!['('] + "session"@ + sp() + qn + seq!['\n'] + rest + seq![')', '\n']);
}

proof fn lemma_session_head_shape(d: DesignView)
    ensures
        session_head(d) == "(session "@ + quoted_of(d.name) + "\n"@ + ("  (base_design "@ + quoted_of(
            d.name + ".dsn"@,
        ) + ")\n"@) + "  (routes\n"@ + ("    (resolution "@ + d.resolution.unit + " "@ + decimal_of(
            d.resolution.value as int,
        ) + ")\n"@) + parser_text() + "    (network_out\n"@,
{
    assert(session_head(d) =~= "(session "@ + quoted_of(d.name) + "\n"@ + ("  (base_design "@ + quoted_of(
        d.name + ".dsn"@,
    ) + ")\n"@) + "  (routes\n"@ + ("    (resolution "@ + d.resolution.unit + " "@ + decimal_of(
        d.resolution.value as int,
    ) + ")\n"@) + parser_text() + "    (network_out\n"@);
}

proof fn lemma_session_text_shape(d: DesignView, r: RoutingResult)
    ensures
        session_text(d, r) == seq!['('] + "session"@ + sp() + quoted_of(d.name) + seq!['\n'] + (
        "  (base_design "@ + quoted_of(d.name + ".dsn"@) + ")\n"@ + routes_text(d, r)) + seq![')', '\n'],
{
    lemma_session_head_shape(d);
    let qn = quoted_of(d.name);
    let base = "  (base_design "@ + quoted_of(d.name + ".dsn"@) + ")\n"@;
    let res = "    (resolution "@ + d.resolution.unit + " "@ + decimal_of(d.resolution.value as int) + ")\n"@;
    let blocks = net_blocks(d, r, d.nets.len() as int);
    let rt = routes_text(d, r);
    assert(rt == "  (routes\n"@ + res + parser_text() + ("    (network_out\n"@ + blocks + "    )\n"@)
        + "  )\n"@);
    let open = "(session "@;
    let nl = "\n"@;
    let close = ")\n"@;
    assert(session_text(d, r) =~= open + qn + nl + (base + rt) + close);
    assert(open =~= seq!['('] + "session"@ + sp()) by {
        reveal_strlit("session");
        reveal_strlit("(session ");
    }
    assert(nl =~= seq!['\n']) by {
        reveal_strlit("\n");
    }
    assert(close =~= seq![')', '\n']) by {
        reveal_strlit(")\n");
    }
}

/// The session text is the text of its layout, then a newline.
proof fn lemma_session_render(d: DesignView, r: RoutingResult)
    ensures
        session_text(d, r) == render(session_doc(d, r)) + seq!['\n'],
{
    lemma_session_layout(d, r);
    lemma_session_text_shape(d, r);
}

// ─── the session layout reads back ────────────────────────────────────────────

/// Children that each stand after a non-empty blank run and read back.
pub open spec fn spaced_ok(items: Seq<(Seq<char>, Doc)>) -> bool {
    forall|k: int|
        0 <= k < items.len() ==> blank((#[trigger] items[k]).0) && items[k].0.len() > 0 && doc_ok(items[k].1)
}

proof fn lemma_group_ok(first: Doc, rest: Seq<(Seq<char>, Doc)>, trail: Seq<char>)
    requires
        doc_ok(first),
        spaced_ok(rest),
        blank(trail),
    ensures
        doc_ok(Doc::Group(seq![(Seq::<char>::empty(), first)] + rest, trail)),
{
    let items = seq![(Seq::<char>::empty(), first)] + rest;
    assert forall|k: int| 0 <= k < items.len() implies blank((#[trigger] items[k]).0) && doc_ok(items[k].1) && (
    needs_gap(items[k].1) && k + 1 < items.len() ==> items[k + 1].0.len() > 0) by {
        if k > 0 {
            assert(items[k] == rest[k - 1]);
        }
        if k + 1 < items.len() {
            assert(items[k + 1] == rest[k]);
        }
    }
    lemma_items_good(items, trail);
}

proof fn lemma_spaced_concat(a: Seq<(Seq<char>, Doc)>, b: Seq<(Seq<char>, Doc)>)
    requires
        spaced_ok(a),
        spaced_ok(b),
    ensures
        spaced_ok(a + b),
{
    assert forall|k: int| 0 <= k < (a + b).len() implies blank((#[trigger] (a + b)[k]).0) && (a + b)[k].0.len()
        > 0 && doc_ok((a + b)[k].1) by {
        if k < a.len() {
            assert((a + b)[k] == a[k]);
        } else {
            assert((a + b)[k] == b[k - a.len()]);
        }
    }
}

proof fn lemma_spaced_one(x: Doc)
    requires
        doc_ok(x),
    ensures
        spaced_ok(seq![(sp(), x)]),
{
    assert(blank(sp()));
}

proof fn lemma_items_of_ok(n: nat, ds: Seq<Doc>)
    requires
        forall|i: int| 0 <= i < ds.len() ==> doc_ok(#[trigger] ds[i]),
    ensures
        spaced_ok(items_of(ind(n), ds)),
{
    let g = seq!['\n'] + ind(n);
    assert(blank(g)) by {
        assert forall|i: int| 0 <= i < g.len() implies #[trigger] g[i] == ' ' || g[i] == '\n' by {
            if i > 0 {
                assert(g[i] == ind(n)[i - 1]);
            }
        }
    }
    let items = items_of(ind(n), ds);
    assert forall|k: int| 0 <= k < items.len() implies blank((#[trigger] items[k]).0) && items[k].0.len() > 0
        && doc_ok(items[k].1) by {
        assert(items[k] == (g, ds[k]));
    }
}

proof fn lemma_points_ok(p: Seq<(i64, i64)>)
    ensures
        spaced_ok(point_items(p)),
    decreases p.len(),
{
    if p.len() > 0 {
        lemma_points_ok(p.drop_last());
        lemma_decimal_word(p.last().0 as int);
        lemma_decimal_word(p.last().1 as int);
        let a = Doc::Word(decimal_of(p.last().0 as int));
        let b = Doc::Word(decimal_of(p.last().1 as int));
        lemma_spaced_one(a);
        lemma_spaced_one(b);
        lemma_spaced_concat(seq![(sp(), a)], seq![(sp(), b)]);
        assert(seq![(sp(), a)] + seq![(sp(), b)] =~= seq![(sp(), a), (sp(), b)]);
        lemma_spaced_concat(point_items(p.drop_last()), seq![(sp(), a), (sp(), b)]);
    }
}

proof fn lemma_wire_ok(w: RoutedWire)
    requires
        token_reads(w.layer@),
    ensures
        doc_ok(wire_doc(w)),
{
    lemma_token(w.layer@);
    lemma_decimal_word(w.width as int);
    lemma_points_ok(w.points@);
    let a1 = (sp(), token_doc(w.layer@));
    let a2 = (sp(), Doc::Word(decimal_of(w.width as int)));
    lemma_spaced_one(a1.1);
    lemma_spaced_one(a2.1);
    lemma_spaced_concat(seq![a1], seq![a2]);
    assert(seq![a1] + seq![a2] =~= seq![a1, a2]);
    lemma_spaced_concat(seq![a1, a2], point_items(w.points@));
    reveal_strlit("path");
    reveal_strlit("wire");
    assert(word_ok("path"@));
    assert(word_ok("wire"@));
    let a0 = (Seq::<char>::empty(), Doc::Word("path"@));
    assert(seq![a0, a1, a2] + point_items(w.points@) =~= seq![a0] + (seq![a1, a2] + point_items(w.points@)));
    lemma_group_ok(Doc::Word("path"@), seq![a1, a2] + point_items(w.points@), Seq::empty());
    lemma_spaced_one(path_doc(w));
    assert(seq![(Seq::<char>::empty(), Doc::Word("wire"@)), (sp(), path_doc(w))] =~= seq![
        (Seq::<char>::empty(), Doc::Word("wire"@)),
    ] + seq![(sp(), path_doc(w))]);
    lemma_group_ok(Doc::Word("wire"@), seq![(sp(), path_doc(w))], Seq::empty());
}

proof fn lemma_via_ok(v: RoutedVia)
    requires
        token_reads(v.padstack_name@),
    ensures
        doc_ok(via_doc(v)),
{
    lemma_token(v.padstack_name@);
    lemma_decimal_word(v.x as int);
    lemma_decimal_word(v.y as int);
    let a1 = (sp(), token_doc(v.padstack_name@));
    let a2 = (sp(), Doc::Word(decimal_of(v.x as int)));
    let a3 = (sp(), Doc::Word(decimal_of(v.y as int)));
    lemma_spaced_one(a1.1);
    lemma_spaced_one(a2.1);
    lemma_spaced_one(a3.1);
    lemma_spaced_concat(seq![a1], seq![a2]);
    lemma_spaced_concat(seq![a1] + seq![a2], seq![a3]);
    assert(seq![a1] + seq![a2] + seq![a3] =~= seq![a1, a2, a3]);
    reveal_strlit("via");
    assert(word_ok("via"@));
    let a0 = (Seq::<char>::empty(), Doc::Word("via"@));
    assert(seq![a0, a1, a2, a3] =~= seq![a0] + seq![a1, a2, a3]);
    lemma_group_ok(Doc::Word("via"@), seq![a1, a2, a3], Seq::empty());
}

/// The names a session writes read back: the design's name, the resolution
/// unit, each net that has wires or vias, the layer of each wire and the
/// padstack of each via that the session writes.
pub open spec fn session_tokens_read(d: DesignView, r: RoutingResult) -> bool {
    &&& token_reads(d.name)
    &&& word_ok(d.resolution.unit)
    &&& forall|k: int| 0 <= k < d.nets.len() && net_used(r, d.nets[k].name) ==> token_reads(#[trigger] d.nets[k].name)
    &&& forall|j: int, k: int|
        0 <= j < r.wires@.len() && 0 <= k < d.nets.len() && (#[trigger] r.wires@[j]).net_name@ == (
        #[trigger] d.nets[k]).name && r.wires@[j].points@.len() >= 2 ==> token_reads(r.wires@[j].layer@)
    &&& forall|j: int, k: int|
        0 <= j < r.vias@.len() && 0 <= k < d.nets.len() && (#[trigger] r.vias@[j]).net_name@ == (
        #[trigger] d.nets[k]).name ==> token_reads(r.vias@[j].padstack_name@)
}

proof fn lemma_wire_docs_ok(ws: Seq<RoutedWire>, name: Seq<char>, n: int)
    requires
        0 <= n <= ws.len(),
        forall|j: int|
            0 <= j < ws.len() && (#[trigger] ws[j]).net_name@ == name && ws[j].points@.len() >= 2 ==> token_reads(
                ws[j].layer@,
            ),
    ensures
        forall|i: int| 0 <= i < wire_docs(ws, name, n).len() ==> doc_ok(#[trigger] wire_docs(ws, name, n)[i]),
    decreases n,
{
    if n > 0 {
        lemma_wire_docs_ok(ws, name, n - 1);
        let w = ws[n - 1];
        let prev = wire_docs(ws, name, n - 1);
        if w.net_name@ == name && w.points@.len() >= 2 {
            lemma_wire_ok(w);
            assert forall|i: int| 0 <= i < wire_docs(ws, name, n).len() implies doc_ok(
                #[trigger] wire_docs(ws, name, n)[i],
            ) by {
                if i < prev.len() {
                    assert(wire_docs(ws, name, n)[i] == prev[i]);
                }
            }
        } else {
            assert(wire_docs(ws, name, n) =~= prev);
        }
    }
}

proof fn lemma_via_docs_ok(vs: Seq<RoutedVia>, name: Seq<char>, n: int)
    requires
        0 <= n <= vs.len(),
        forall|j: int| 0 <= j < vs.len() && (#[trigger] vs[j]).net_name@ == name ==> token_reads(vs[j].padstack_name@),
    ensures
        forall|i: int| 0 <= i < via_docs(vs, name, n).len() ==> doc_ok(#[trigger] via_docs(vs, name, n)[i]),
    decreases n,
{
    if n > 0 {
        lemma_via_docs_ok(vs, name, n - 1);
        let v = vs[n - 1];
        let prev = via_docs(vs, name, n - 1);
        if v.net_name@ == name {
            lemma_via_ok(v);
            assert forall|i: int| 0 <= i < via_docs(vs, name, n).len() implies doc_ok(
                #[trigger] via_docs(vs, name, n)[i],
            ) by {
                if i < prev.len() {
                    assert(via_docs(vs, name, n)[i] == prev[i]);
                }
            }
        } else {
            assert(via_docs(vs, name, n) =~= prev);
        }
    }
}


proof fn lemma_trail_blank(n: nat)
    ensures
        blank(seq!['\n'] + ind(n)),
{
    let g = seq!['\n'] + ind(n);
    assert forall|i: int| 0 <= i < g.len() implies #[trigger] g[i] == ' ' || g[i] == '\n' by {
        if i > 0 {
            assert(g[i] == ind(n)[i - 1]);
        }
    }
}

proof fn lemma_net_ok(r: RoutingResult, name: Seq<char>)
    requires
        token_reads(name),
        forall|j: int|
            0 <= j < r.wires@.len() && (#[trigger] r.wires@[j]).net_name@ == name && r.wires@[j].points@.len() >= 2
                ==> token_reads(r.wires@[j].layer@),
        forall|j: int|
            0 <= j < r.vias@.len() && (#[trigger] r.vias@[j]).net_name@ == name ==> token_reads(
                r.vias@[j].padstack_name@,
            ),
    ensures
        doc_ok(net_doc(r, name)),
{
    let wd = wire_docs(r.wires@, name, r.wires@.len() as int);
    let vd = via_docs(r.vias@, name, r.vias@.len() as int);
    lemma_wire_docs_ok(r.wires@, name, r.wires@.len() as int);
    lemma_via_docs_ok(r.vias@, name, r.vias@.len() as int);
    assert forall|i: int| 0 <= i < (wd + vd).len() implies doc_ok(#[trigger] (wd + vd)[i]) by {
        if i < wd.len() {
            assert((wd + vd)[i] == wd[i]);
        } else {
            assert((wd + vd)[i] == vd[i - wd.len()]);
        }
    }
    lemma_items_of_ok(8, wd + vd);
    lemma_token(name);
    lemma_spaced_one(token_doc(name));
    lemma_spaced_concat(seq![(sp(), token_doc(name))], items_of(ind(8), wd + vd));
    lemma_trail_blank(6);
    reveal_strlit("net");
    assert(word_ok("net"@));
    let a0 = (Seq::<char>::empty(), Doc::Word("net"@));
    assert(seq![a0, (sp(), token_doc(name))] + items_of(ind(8), wd + vd) =~= seq![a0] + (seq![
        (sp(), token_doc(name)),
    ] + items_of(ind(8), wd + vd)));
    lemma_group_ok(Doc::Word("net"@), seq![(sp(), token_doc(name))] + items_of(ind(8), wd + vd), seq!['\n'] + ind(6));
}

proof fn lemma_net_docs_ok(d: DesignView, r: RoutingResult, n: int)
    requires
        0 <= n <= d.nets.len(),
        session_tokens_read(d, r),
    ensures
        forall|i: int| 0 <= i < net_docs(d, r, n).len() ==> doc_ok(#[trigger] net_docs(d, r, n)[i]),
    decreases n,
{
    if n > 0 {
        lemma_net_docs_ok(d, r, n - 1);
        let name = d.nets[n - 1].name;
        let prev = net_docs(d, r, n - 1);
        if net_used(r, name) {
            assert(token_reads(d.nets[n - 1].name));
            assert forall|j: int|
                0 <= j < r.wires@.len() && (#[trigger] r.wires@[j]).net_name@ == name && r.wires@[j].points@.len()
                    >= 2 implies token_reads(r.wires@[j].layer@) by {
                assert(r.wires@[j].net_name@ == d.nets[n - 1].name);
            }
            assert forall|j: int| 0 <= j < r.vias@.len() && (#[trigger] r.vias@[j]).net_name@ == name implies token_reads(
                r.vias@[j].padstack_name@,
            ) by {
                assert(r.vias@[j].net_name@ == d.nets[n - 1].name);
            }
            lemma_net_ok(r, name);
            assert forall|i: int| 0 <= i < net_docs(d, r, n).len() implies doc_ok(#[trigger] net_docs(d, r, n)[i]) by {
                if i < prev.len() {
                    assert(net_docs(d, r, n)[i] == prev[i]);
                }
            }
        } else {
            assert(net_docs(d, r, n) =~= prev);
        }
    }
}

proof fn lemma_pair_ok(key: Seq<char>, value: Doc)
    requires
        word_ok(key),
        doc_ok(value),
    ensures
        doc_ok(pair_doc(key, value)),
{
    lemma_spaced_one(value);
    assert(seq![(Seq::<char>::empty(), Doc::Word(key)), (sp(), value)] =~= seq![
        (Seq::<char>::empty(), Doc::Word(key)),
    ] + seq![(sp(), value)]);
    assert(blank(Seq::<char>::empty()));
    lemma_group_ok(Doc::Word(key), seq![(sp(), value)], Seq::empty());
}

proof fn lemma_parser_ok()
    ensures
        doc_ok(parser_doc()),
{
    reveal_strlit("parser");
    reveal_strlit("string_quote");
    reveal_strlit("space_in_quoted_tokens");
    reveal_strlit("on");
    reveal_strlit("host_cad");
    reveal_strlit("host_version");
    reveal_strlit("openrouting");
    reveal_strlit("0.1.0");
    assert(word_ok("parser"@));
    assert(word_ok("string_quote"@));
    assert(word_ok("space_in_quoted_tokens"@));
    assert(word_ok("on"@));
    assert(word_ok("host_cad"@));
    assert(word_ok("host_version"@));
    assert(text_ok("openrouting"@));
    assert(text_ok("0.1.0"@));
    let p0 = pair_doc("string_quote"@, Doc::Quote);
    let p1 = pair_doc("space_in_quoted_tokens"@, Doc::Word("on"@));
    let p2 = pair_doc("host_cad"@, Doc::Text("openrouting"@));
    let p3 = pair_doc("host_version"@, Doc::Text("0.1.0"@));
    lemma_pair_ok("string_quote"@, Doc::Quote);
    lemma_pair_ok("space_in_quoted_tokens"@, Doc::Word("on"@));
    lemma_pair_ok("host_cad"@, Doc::Text("openrouting"@));
    lemma_pair_ok("host_version"@, Doc::Text("0.1.0"@));
    let ds = seq![p0, p1, p2, p3];
    assert forall|i: int| 0 <= i < ds.len() implies doc_ok(#[trigger] ds[i]) by {}
    lemma_items_of_ok(6, ds);
    lemma_trail_blank(4);
    lemma_group_ok(Doc::Word("parser"@), items_of(ind(6), ds), seq!['\n'] + ind(4));
}

proof fn lemma_routes_ok(d: DesignView, r: RoutingResult)
    requires
        session_tokens_read(d, r),
    ensures
        doc_ok(routes_doc(d, r)),
{
    let nd = net_docs(d, r, d.nets.len() as int);
    lemma_net_docs_ok(d, r, d.nets.len() as int);
    lemma_items_of_ok(6, nd);
    lemma_trail_blank(4);
    reveal_strlit("network_out");
    assert(word_ok("network_out"@));
    lemma_group_ok(Doc::Word("network_out"@), items_of(ind(6), nd), seq!['\n'] + ind(4));
    lemma_decimal_word(d.resolution.value as int);
    let a1 = (sp(), Doc::Word(d.resolution.unit));
    let a2 = (sp(), Doc::Word(decimal_of(d.resolution.value as int)));
    lemma_spaced_one(a1.1);
    lemma_spaced_one(a2.1);
    lemma_spaced_concat(seq![a1], seq![a2]);
    assert(seq![a1] + seq![a2] =~= seq![a1, a2]);
    reveal_strlit("resolution");
    assert(word_ok("resolution"@));
    let a0 = (Seq::<char>::empty(), Doc::Word("resolution"@));
    assert(seq![a0, a1, a2] =~= seq![a0] + seq![a1, a2]);
    assert(blank(Seq::<char>::empty()));
    lemma_group_ok(Doc::Word("resolution"@), seq![a1, a2], Seq::empty());
    lemma_parser_ok();
    let ds = seq![resolution_doc(d), parser_doc(), network_doc(d, r)];
    assert forall|i: int| 0 <= i < ds.len() implies doc_ok(#[trigger] ds[i]) by {}
    lemma_items_of_ok(4, ds);
    lemma_trail_blank(2);
    reveal_strlit("routes");
    assert(word_ok("routes"@));
    lemma_group_ok(Doc::Word("routes"@), items_of(ind(4), ds), seq!['\n'] + ind(2));
}

proof fn lemma_dsn_name_reads(name: Seq<char>)
    requires
        token_reads(name),
    ensures
        token_reads(name + ".dsn"@),
{
    reveal_strlit(".dsn");
    let x = name + ".dsn"@;
    if must_quote(name) {
        if name.len() > 0 {
            let i = choose|i: int|
                0 <= i < name.len() && (is_white_space(#[trigger] name[i]) || name[i] == '(' || name[i] == ')'
                    || name[i] == '"');
            assert(x[i] == name[i]);
            assert(must_quote(x));
            assert(x[0] == name[0]);
        } else {
            assert(x =~= ".dsn"@);
            assert(!must_quote(x)) by {
                assert forall|i: int| 0 <= i < x.len() implies !(is_white_space(#[trigger] x[i]) || x[i] == '('
                    || x[i] == ')' || x[i] == '"') by {}
            }
        }
    } else {
        assert(name.len() > 0);
        assert(!must_quote(x)) by {
            assert forall|i: int| 0 <= i < x.len() implies !(is_white_space(#[trigger] x[i]) || x[i] == '(' || x[i]
                == ')' || x[i] == '"') by {
                if i < name.len() {
                    assert(x[i] == name[i]);
                    if is_white_space(name[i]) || name[i] == '(' || name[i] == ')' || name[i] == '"' {
                        assert(must_quote(name));
                    }
                }
            }
        }
        assert(x[0] == name[0]);
        if name.len() > 1 {
            assert(x[1] == name[1]);
        } else {
            assert(x[1] == '.');
        }
    }
}

proof fn lemma_session_ok(d: DesignView, r: RoutingResult)
    requires
        session_tokens_read(d, r),
    ensures
        doc_ok(session_doc(d, r)),
{
    lemma_routes_ok(d, r);
    lemma_dsn_name_reads(d.name);
    lemma_token(d.name);
    lemma_token(d.name + ".dsn"@);
    reveal_strlit("base_design");
    assert(word_ok("base_design"@));
    lemma_pair_ok("base_design"@, token_doc(d.name + ".dsn"@));
    let ds = seq![pair_doc("base_design"@, token_doc(d.name + ".dsn"@)), routes_doc(d, r)];
    assert forall|i: int| 0 <= i < ds.len() implies doc_ok(#[trigger] ds[i]) by {}
    lemma_items_of_ok(2, ds);
    lemma_spaced_one(token_doc(d.name));
    lemma_spaced_concat(seq![(sp(), token_doc(d.name))], items_of(ind(2), ds));
    reveal_strlit("session");
    assert(word_ok("session"@));
    let a0 = (Seq::<char>::empty(), Doc::Word("session"@));
    assert(seq![a0, (sp(), token_doc(d.name))] + items_of(ind(2), ds) =~= seq![a0] + (seq![(sp(), token_doc(d.name))]
        + items_of(ind(2), ds)));
    assert(blank(seq!['\n']));
    lemma_group_ok(Doc::Word("session"@), seq![(sp(), token_doc(d.name))] + items_of(ind(2), ds), seq!['\n']);
}

/// A session reads back as the tree it was written from: reading the text
/// that [`crate::ses::ses_text`] writes gives the list whose head is
/// `session`, then the design's name, then the base design and the routes,
/// each child as its layout stands for it.
pub proof fn lemma_session_reads_back(d: DesignView, r: RoutingResult)
    requires
        session_tokens_read(d, r),
    ensures
        parse_text(session_text(d, r)) == Ok::<SexpView, Seq<char>>(tree(session_doc(d, r))),
        tree(session_doc(d, r)) matches SexpView::List(items) && items.len() == 4 && items[0] == SexpView::Atom(
            "session"@,
        ) && items[1] == SexpView::Atom(d.name),
{
    lemma_session_render(d, r);
    lemma_session_ok(d, r);
    assert(blank(seq!['\n']));
    lemma_read_doc(session_doc(d, r), seq!['\n']);
    let e = Seq::<char>::empty();
    let a0 = (e, Doc::Word("session"@));
    let a1 = (sp(), token_doc(d.name));
    let ds = seq![pair_doc("base_design"@, token_doc(d.name + ".dsn"@)), routes_doc(d, r)];
    let rest = items_of(ind(2), ds);
    assert(seq![a0, a1] + rest =~= seq![a0] + (seq![a1] + rest));
    lemma_render_cons(a0, seq![a1] + rest);
    lemma_render_cons(a1, rest);
    lemma_token(d.name);
    assert(rest.len() == 2);
    assert(rest.drop_first().drop_first().len() == 0);
    assert(rest =~= seq![rest[0]] + seq![rest[1]]);
    lemma_render_cons(rest[0], seq![rest[1]]);
    lemma_render_one(rest[1]);
}

} // verus!

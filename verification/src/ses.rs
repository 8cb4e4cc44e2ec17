//! Writing a routing result as a Specctra SES session.

use vstd::prelude::*;
use crate::dsn::{DsnDesign, DesignView};
use crate::router::{RoutedWire, RoutedVia, RoutingResult};
use crate::sexp::{SexpView, parse_text, parse_items, skip_blank, space_end, starts_comment, quoted_body, bare_atom, is_delimiter, lone_quote, prepend};
use crate::text::{is_white_space, is_whitespace, chars_of, string_from_chars, decimal_of, digits_of, digit_char, push_decimal};

verus! {

/// Whether a token must be written in quotes: it is empty or holds white
/// space, a parenthesis or a double quote.
pub open spec fn must_quote(s: Seq<char>) -> bool {
    s.len() == 0 || exists|i: int|
        0 <= i < s.len() && (is_white_space(#[trigger] s[i]) || s[i] == '(' || s[i] == ')' || s[i]
            == '"')
}

/// `s` with each backslash and each double quote preceded by a backslash.
pub open spec fn escaped(s: Seq<char>) -> Seq<char>
    decreases s.len(),
{
    if s.len() == 0 {
        Seq::empty()
    } else {
        escaped(s.drop_last()) + escape_char(s.last())
    }
}

/// One character as it is written inside quotes.
pub open spec fn escape_char(c: char) -> Seq<char> {
    if c == '\\' || c == '"' {
        seq!['\\', c]
    } else {
        seq![c]
    }
}

/// A token as the session writes it: in double quotes, escaped, where it
/// must be quoted; as it is otherwise.
pub open spec fn quoted_of(s: Seq<char>) -> Seq<char> {
    if must_quote(s) {
        seq!['"'] + escaped(s) + seq!['"']
    } else {
        s
    }
}

/// Whether `s` must be written in quotes (see [`must_quote`]).
pub fn needs_quotes(s: &str) -> (r: bool)
    ensures
        r == must_quote(s@),
{
    let v = chars_of(s);
    if v.len() == 0 {
        return true;
    }
    let mut i: usize = 0;
    while i < v.len()
        invariant
            v@ == s@,
            i <= v@.len(),
            forall|j: int|
                0 <= j < i ==> !(is_white_space(#[trigger] v@[j]) || v@[j] == '(' || v@[j] == ')'
                    || v@[j] == '"'),
        decreases v.len() - i,
    {
        let c = v[i];
        if is_whitespace(c) || c == '(' || c == ')' || c == '"' {
            proof {
                assert(is_white_space(s@[i as int]) || s@[i as int] == '(' || s@[i as int] == ')'
                    || s@[i as int] == '"');
            }
            return true;
        }
        i = i + 1;
    }
    false
}

fn push_chars(out: &mut Vec<char>, s: &str)
    ensures
        final(out)@ == old(out)@ + s@,
{
    let v = chars_of(s);
    let mut i: usize = 0;
    while i < v.len()
        invariant
            v@ == s@,
            i <= v@.len(),
            out@ == old(out)@ + s@.take(i as int),
        decreases v.len() - i,
    {
        out.push(v[i]);
        proof {
            assert(s@.take(i + 1) =~= s@.take(i as int).push(s@[i as int]));
        }
        i = i + 1;
    }
    proof {
        assert(s@.take(s@.len() as int) =~= s@);
    }
}

fn push_quoted(out: &mut Vec<char>, s: &str)
    ensures
        final(out)@ == old(out)@ + quoted_of(s@),
{
    if !needs_quotes(s) {
        push_chars(out, s);
        return;
    }
    let ghost base = out@;
    out.push('"');
    let v = chars_of(s);
    let mut i: usize = 0;
    while i < v.len()
        invariant
            v@ == s@,
            i <= v@.len(),
            out@ == base + seq!['"'] + escaped(s@.take(i as int)),
        decreases v.len() - i,
    {
        let c = v[i];
        proof {
            assert(s@.take(i + 1).drop_last() =~= s@.take(i as int));
            assert(s@.take(i + 1).last() == c);
        }
        if c == '\\' || c == '"' {
            out.push('\\');
        }
        out.push(c);
        proof {
            if c == '\\' || c == '"' {
                assert(out@ =~= base + seq!['"'] + escaped(s@.take(i + 1)));
            } else {
                assert(out@ =~= base + seq!['"'] + escaped(s@.take(i + 1)));
            }
        }
        i = i + 1;
    }
    out.push('"');
    proof {
        assert(s@.take(s@.len() as int) =~= s@);
        assert(out@ =~= base + quoted_of(s@));
    }
}

/// A token as the session writes it (see [`quoted_of`]).
pub fn quoted(s: &str) -> (r: String)
    ensures
        r@ == quoted_of(s@),
{
    let mut out: Vec<char> = Vec::new();
    push_quoted(&mut out, s);
    proof {
        assert(out@ =~= quoted_of(s@));
    }
    string_from_chars(out)
}

/// The coordinates of a path, each as ` x y`.
pub open spec fn points_text(p: Seq<(i64, i64)>) -> Seq<char>
    decreases p.len(),
{
    if p.len() == 0 {
        Seq::empty()
    } else {
        points_text(p.drop_last()) + " "@ + decimal_of(p.last().0 as int) + " "@ + decimal_of(
            p.last().1 as int,
        )
    }
}

/// The line of a wire.
pub open spec fn wire_line(w: RoutedWire) -> Seq<char> {
    "        (wire (path "@ + quoted_of(w.layer@) + " "@ + decimal_of(w.width as int) + points_text(
        w.points@,
    ) + "))\n"@
}

/// The line of a via.
pub open spec fn via_line(v: RoutedVia) -> Seq<char> {
    "        (via "@ + quoted_of(v.padstack_name@) + " "@ + decimal_of(v.x as int) + " "@
        + decimal_of(v.y as int) + ")\n"@
}

/// The lines of the first `n` wires that belong to net `name` and have two
/// points or more.
pub open spec fn wire_lines(ws: Seq<RoutedWire>, name: Seq<char>, n: int) -> Seq<char>
    decreases n,
{
    if n <= 0 {
        Seq::empty()
    } else {
        wire_lines(ws, name, n - 1) + if ws[n - 1].net_name@ == name && ws[n - 1].points@.len()
            >= 2 {
            wire_line(ws[n - 1])
        } else {
            Seq::empty()
        }
    }
}

/// The lines of the first `n` vias that belong to net `name`.
pub open spec fn via_lines(vs: Seq<RoutedVia>, name: Seq<char>, n: int) -> Seq<char>
    decreases n,
{
    if n <= 0 {
        Seq::empty()
    } else {
        via_lines(vs, name, n - 1) + if vs[n - 1].net_name@ == name {
            via_line(vs[n - 1])
        } else {
            Seq::empty()
        }
    }
}

/// Whether the result has a wire or a via of net `name`.
pub open spec fn net_used(r: RoutingResult, name: Seq<char>) -> bool {
    (exists|k: int| 0 <= k < r.wires@.len() && (#[trigger] r.wires@[k]).net_name@ == name) || (
    exists|k: int| 0 <= k < r.vias@.len() && (#[trigger] r.vias@[k]).net_name@ == name)
}

/// The block of net `name`: its wires, then its vias; nothing for a net
/// with neither.
pub open spec fn net_block(r: RoutingResult, name: Seq<char>) -> Seq<char> {
    if net_used(r, name) {
        "      (net "@ + quoted_of(name) + "\n"@ + wire_lines(r.wires@, name, r.wires@.len() as int)
            + via_lines(r.vias@, name, r.vias@.len() as int) + "      )\n"@
    } else {
        Seq::empty()
    }
}

/// The blocks of the first `n` nets of the design, in its order.
pub open spec fn net_blocks(d: DesignView, r: RoutingResult, n: int) -> Seq<char>
    decreases n,
{
    if n <= 0 {
        Seq::empty()
    } else {
        net_blocks(d, r, n - 1) + net_block(r, d.nets[n - 1].name)
    }
}

/// The session's opening lines, up to `(network_out`.
pub open spec fn session_head(d: DesignView) -> Seq<char> {
    "(session "@ + quoted_of(d.name) + "\n"@ + "  (base_design "@ + quoted_of(d.name + ".dsn"@)
        + ")\n"@ + "  (routes\n"@ + "    (resolution "@ + d.resolution.unit + " "@ + decimal_of(
        d.resolution.value as int,
    ) + ")\n"@ + "    (parser\n"@ + "      (string_quote \")\n"@
        + "      (space_in_quoted_tokens on)\n"@ + "      (host_cad \"openrouting\")\n"@
        + "      (host_version \"0.1.0\")\n"@ + "    )\n"@ + "    (network_out\n"@
}

/// The SES session of a routing result: the head, a block per net of the
/// design that has wires or vias, and the closing lines.
pub open spec fn session_text(d: DesignView, r: RoutingResult) -> Seq<char> {
    session_head(d) + net_blocks(d, r, d.nets.len() as int) + "    )\n"@ + "  )\n"@ + ")\n"@
}

fn net_has_wire_or_via(routing: &RoutingResult, name: &str) -> (r: bool)
    ensures
        r == net_used(*routing, name@),
{
    let mut k: usize = 0;
    while k < routing.wires.len()
        invariant
            k <= routing.wires.len(),
            forall|j: int| 0 <= j < k ==> (#[trigger] routing.wires@[j]).net_name@ != name@,
        decreases routing.wires.len() - k,
    {
        if crate::text::str_eq(routing.wires[k].net_name.as_str(), name) {
            return true;
        }
        k = k + 1;
    }
    let mut k: usize = 0;
    while k < routing.vias.len()
        invariant
            k <= routing.vias.len(),
            forall|j: int| 0 <= j < routing.wires@.len() ==> (#[trigger] routing.wires@[j]).net_name@ != name@,
            forall|j: int| 0 <= j < k ==> (#[trigger] routing.vias@[j]).net_name@ != name@,
        decreases routing.vias.len() - k,
    {
        if crate::text::str_eq(routing.vias[k].net_name.as_str(), name) {
            return true;
        }
        k = k + 1;
    }
    false
}

fn push_wire(out: &mut Vec<char>, w: &RoutedWire)
    ensures
        final(out)@ == old(out)@ + wire_line(*w),
{
    let ghost base = out@;
    push_chars(out, "        (wire (path ");
    push_quoted(out, w.layer.as_str());
    push_chars(out, " ");
    push_decimal(out, w.width);
    let ghost head = out@;
    let mut k: usize = 0;
    while k < w.points.len()
        invariant
            k <= w.points.len(),
            out@ == head + points_text(w.points@.take(k as int)),
        decreases w.points.len() - k,
    {
        let (x, y) = w.points[k];
        push_chars(out, " ");
        push_decimal(out, x);
        push_chars(out, " ");
        push_decimal(out, y);
        proof {
            assert(w.points@.take(k + 1).drop_last() =~= w.points@.take(k as int));
            assert(out@ =~= head + points_text(w.points@.take(k + 1)));
        }
        k = k + 1;
    }
    push_chars(out, "))\n");
    proof {
        assert(w.points@.take(w.points@.len() as int) =~= w.points@);
        assert(out@ =~= base + wire_line(*w));
    }
}

fn push_via(out: &mut Vec<char>, v: &RoutedVia)
    ensures
        final(out)@ == old(out)@ + via_line(*v),
{
    let ghost base = out@;
    push_chars(out, "        (via ");
    push_quoted(out, v.padstack_name.as_str());
    push_chars(out, " ");
    push_decimal(out, v.x);
    push_chars(out, " ");
    push_decimal(out, v.y);
    push_chars(out, ")\n");
    proof {
        assert(out@ =~= base + via_line(*v));
    }
}

fn push_net_block(out: &mut Vec<char>, routing: &RoutingResult, name: &str)
    ensures
        final(out)@ == old(out)@ + net_block(*routing, name@),
{
    if !net_has_wire_or_via(routing, name) {
        proof {
            assert(out@ =~= old(out)@ + net_block(*routing, name@));
        }
        return;
    }
    let ghost base = out@;
    push_chars(out, "      (net ");
    push_quoted(out, name);
    push_chars(out, "\n");
    let ghost head = out@;
    let mut k: usize = 0;
    while k < routing.wires.len()
        invariant
            k <= routing.wires.len(),
            out@ == head + wire_lines(routing.wires@, name@, k as int),
        decreases routing.wires.len() - k,
    {
        let w = &routing.wires[k];
        if crate::text::str_eq(w.net_name.as_str(), name) && w.points.len() >= 2 {
            push_wire(out, w);
        }
        proof {
            assert(out@ =~= head + wire_lines(routing.wires@, name@, k + 1));
        }
        k = k + 1;
    }
    let ghost mid = out@;
    let mut k: usize = 0;
    while k < routing.vias.len()
        invariant
            k <= routing.vias.len(),
            out@ == mid + via_lines(routing.vias@, name@, k as int),
        decreases routing.vias.len() - k,
    {
        let v = &routing.vias[k];
        if crate::text::str_eq(v.net_name.as_str(), name) {
            push_via(out, v);
        }
        proof {
            assert(out@ =~= mid + via_lines(routing.vias@, name@, k + 1));
        }
        k = k + 1;
    }
    push_chars(out, "      )\n");
    proof {
        assert(out@ =~= base + net_block(*routing, name@));
    }
}

/// The SES session text of a routing result (see [`session_text`]).
pub fn ses_text(design: &DsnDesign, routing: &RoutingResult) -> (r: String)
    ensures
        r@ == session_text(design@, *routing),
{
    let mut out: Vec<char> = Vec::new();
    push_chars(&mut out, "(session ");
    push_quoted(&mut out, design.name.as_str());
    push_chars(&mut out, "\n");
    push_chars(&mut out, "  (base_design ");
    let mut dsn_name: Vec<char> = chars_of(design.name.as_str());
    push_chars(&mut dsn_name, ".dsn");
    let dsn_name = string_from_chars(dsn_name);
    push_quoted(&mut out, dsn_name.as_str());
    push_chars(&mut out, ")\n");
    push_chars(&mut out, "  (routes\n");
    push_chars(&mut out, "    (resolution ");
    push_chars(&mut out, design.resolution.unit.as_str());
    push_chars(&mut out, " ");
    push_decimal(&mut out, design.resolution.value);
    push_chars(&mut out, ")\n");
    push_chars(&mut out, "    (parser\n");
    push_chars(&mut out, "      (string_quote \")\n");
    push_chars(&mut out, "      (space_in_quoted_tokens on)\n");
    push_chars(&mut out, "      (host_cad \"openrouting\")\n");
    push_chars(&mut out, "      (host_version \"0.1.0\")\n");
    push_chars(&mut out, "    )\n");
    push_chars(&mut out, "    (network_out\n");
    let ghost head = out@;
    proof {
        assert(head =~= session_head(design@));
    }
    let mut n: usize = 0;
    while n < design.nets.len()
        invariant
            n <= design.nets.len(),
            design@.nets.len() == design.nets.len(),
            out@ == head + net_blocks(design@, *routing, n as int),
        decreases design.nets.len() - n,
    {
        proof {
            assert(design@.nets[n as int].name == design.nets@[n as int].name@);
        }
        push_net_block(&mut out, routing, design.nets[n].name.as_str());
        proof {
            assert(out@ =~= head + net_blocks(design@, *routing, n + 1));
        }
        n = n + 1;
    }
    push_chars(&mut out, "    )\n");
    push_chars(&mut out, "  )\n");
    push_chars(&mut out, ")\n");
    proof {
        assert(out@ =~= session_text(design@, *routing));
    }
    string_from_chars(out)
}

// ─── balanced parentheses ─────────────────────────────────────────────────────

/// Opening minus closing parentheses in `s`.
pub open spec fn paren_balance(s: Seq<char>) -> int
    decreases s.len(),
{
    if s.len() == 0 {
        0
    } else {
        paren_balance(s.drop_last()) + if s.last() == '(' {
            1int
        } else if s.last() == ')' {
            -1int
        } else {
            0int
        }
    }
}

/// `s` holds no parenthesis.
pub open spec fn paren_free(s: Seq<char>) -> bool {
    forall|i: int| 0 <= i < s.len() ==> (#[trigger] s[i]) != '(' && s[i] != ')'
}

pub broadcast proof fn lemma_balance_concat(a: Seq<char>, b: Seq<char>)
    ensures
        #[trigger] paren_balance(a + b) == paren_balance(a) + paren_balance(b),
    decreases b.len(),
{
    if b.len() == 0 {
        assert(a + b =~= a);
    } else {
        lemma_balance_concat(a, b.drop_last());
        assert((a + b).drop_last() =~= a + b.drop_last());
    }
}

proof fn lemma_free_balance(s: Seq<char>)
    requires
        paren_free(s),
    ensures
        paren_balance(s) == 0,
    decreases s.len(),
{
    if s.len() > 0 {
        assert(s[s.len() - 1] != '(' && s[s.len() - 1] != ')');
        lemma_free_balance(s.drop_last());
    }
}

proof fn lemma_escaped_free(s: Seq<char>)
    requires
        paren_free(s),
    ensures
        paren_free(escaped(s)),
    decreases s.len(),
{
    if s.len() > 0 {
        lemma_escaped_free(s.drop_last());
        let c = s.last();
        assert(s[s.len() - 1] == c);
        let tail = escape_char(c);
        assert forall|i: int| 0 <= i < escaped(s).len() implies (#[trigger] escaped(s)[i]) != '('
            && escaped(s)[i] != ')' by {
            if i < escaped(s.drop_last()).len() {
                assert(escaped(s)[i] == escaped(s.drop_last())[i]);
            } else {
                assert(escaped(s)[i] == tail[i - escaped(s.drop_last()).len()]);
            }
        }
    }
}

proof fn lemma_quoted_free(s: Seq<char>)
    requires
        paren_free(s),
    ensures
        paren_free(quoted_of(s)),
        paren_balance(quoted_of(s)) == 0,
{
    if must_quote(s) {
        lemma_escaped_free(s);
        let q = seq!['"'] + escaped(s) + seq!['"'];
        assert forall|i: int| 0 <= i < q.len() implies (#[trigger] q[i]) != '(' && q[i] != ')' by {
            if i > 0 && i < q.len() - 1 {
                assert(q[i] == escaped(s)[i - 1]);
            }
        }
    }
    lemma_free_balance(quoted_of(s));
}

proof fn lemma_digits_free(n: nat)
    ensures
        paren_free(digits_of(n)),
    decreases n,
{
    if n >= 10 {
        lemma_digits_free(n / 10);
        let d = digits_of(n);
        assert forall|i: int| 0 <= i < d.len() implies (#[trigger] d[i]) != '(' && d[i] != ')' by {
            if i < d.len() - 1 {
                assert(d[i] == digits_of(n / 10)[i]);
            }
        }
    }
}

proof fn lemma_decimal_free(n: int)
    ensures
        paren_free(decimal_of(n)),
        paren_balance(decimal_of(n)) == 0,
{
    if n < 0 {
        lemma_digits_free((-n) as nat);
        let d = decimal_of(n);
        assert forall|i: int| 0 <= i < d.len() implies (#[trigger] d[i]) != '(' && d[i] != ')' by {
            if i > 0 {
                assert(d[i] == digits_of((-n) as nat)[i - 1]);
            }
        }
    } else {
        lemma_digits_free(n as nat);
    }
    lemma_free_balance(decimal_of(n));
}

proof fn lemma_points_balance(p: Seq<(i64, i64)>)
    ensures
        paren_balance(points_text(p)) == 0,
    decreases p.len(),
{
    broadcast use lemma_balance_concat;
    if p.len() > 0 {
        lemma_points_balance(p.drop_last());
        lemma_decimal_free(p.last().0 as int);
        lemma_decimal_free(p.last().1 as int);
        reveal_strlit(" ");
        reveal_with_fuel(paren_balance, 2);
    }
}

proof fn balance_wire_head()
    ensures
        paren_balance("        (wire (path "@) == 2,
{
    reveal_strlit("        (wire (path ");
    reveal_with_fuel(paren_balance, 22);
}

proof fn balance_space()
    ensures
        paren_balance(" "@) == 0,
{
    reveal_strlit(" ");
    reveal_with_fuel(paren_balance, 2);
}

proof fn balance_wire_tail()
    ensures
        paren_balance("))\n"@) == -2,
{
    reveal_strlit("))\n");
    reveal_with_fuel(paren_balance, 4);
}

proof fn balance_via_head()
    ensures
        paren_balance("        (via "@) == 1,
{
    reveal_strlit("        (via ");
    reveal_with_fuel(paren_balance, 15);
}

proof fn balance_close_line()
    ensures
        paren_balance(")\n"@) == -1,
{
    reveal_strlit(")\n");
    reveal_with_fuel(paren_balance, 3);
}

proof fn balance_net_head()
    ensures
        paren_balance("      (net "@) == 1,
{
    reveal_strlit("      (net ");
    reveal_with_fuel(paren_balance, 13);
}

proof fn balance_newline()
    ensures
        paren_balance("\n"@) == 0,
{
    reveal_strlit("\n");
    reveal_with_fuel(paren_balance, 2);
}

proof fn balance_net_tail()
    ensures
        paren_balance("      )\n"@) == -1,
{
    reveal_strlit("      )\n");
    reveal_with_fuel(paren_balance, 10);
}

proof fn balance_session_head()
    ensures
        paren_balance("(session "@) == 1,
{
    reveal_strlit("(session ");
    reveal_with_fuel(paren_balance, 10);
}

proof fn balance_base_design()
    ensures
        paren_balance("  (base_design "@) == 1,
{
    reveal_strlit("  (base_design ");
    reveal_with_fuel(paren_balance, 16);
}

proof fn balance_routes()
    ensures
        paren_balance("  (routes\n"@) == 1,
{
    reveal_strlit("  (routes\n");
    reveal_with_fuel(paren_balance, 11);
}

proof fn balance_resolution()
    ensures
        paren_balance("    (resolution "@) == 1,
{
    reveal_strlit("    (resolution ");
    reveal_with_fuel(paren_balance, 17);
}

proof fn balance_parser()
    ensures
        paren_balance("    (parser\n"@) == 1,
{
    reveal_strlit("    (parser\n");
    reveal_with_fuel(paren_balance, 13);
}

proof fn balance_string_quote()
    ensures
        paren_balance("      (string_quote \")\n"@) == 0,
{
    reveal_strlit("      (string_quote \")\n");
    reveal_with_fuel(paren_balance, 24);
}

proof fn balance_space_in_quoted()
    ensures
        paren_balance("      (space_in_quoted_tokens on)\n"@) == 0,
{
    reveal_strlit("      (space_in_quoted_tokens on)\n");
    reveal_with_fuel(paren_balance, 36);
}

proof fn balance_host_cad()
    ensures
        paren_balance("      (host_cad \"openrouting\")\n"@) == 0,
{
    reveal_strlit("      (host_cad \"openrouting\")\n");
    reveal_with_fuel(paren_balance, 33);
}

proof fn balance_host_version()
    ensures
        paren_balance("      (host_version \"0.1.0\")\n"@) == 0,
{
    reveal_strlit("      (host_version \"0.1.0\")\n");
    reveal_with_fuel(paren_balance, 31);
}

proof fn balance_close_section()
    ensures
        paren_balance("    )\n"@) == -1,
{
    reveal_strlit("    )\n");
    reveal_with_fuel(paren_balance, 7);
}

proof fn balance_network_out()
    ensures
        paren_balance("    (network_out\n"@) == 1,
{
    reveal_strlit("    (network_out\n");
    reveal_with_fuel(paren_balance, 18);
}

proof fn balance_close_routes()
    ensures
        paren_balance("  )\n"@) == -1,
{
    reveal_strlit("  )\n");
    reveal_with_fuel(paren_balance, 5);
}

proof fn lemma_wire_line_balance(w: RoutedWire)
    requires
        paren_free(w.layer@),
    ensures
        paren_balance(wire_line(w)) == 0,
{
    broadcast use lemma_balance_concat;
    lemma_quoted_free(w.layer@);
    lemma_decimal_free(w.width as int);
    lemma_points_balance(w.points@);
    balance_wire_head();
    balance_space();
    balance_wire_tail();
}

proof fn lemma_via_line_balance(v: RoutedVia)
    requires
        paren_free(v.padstack_name@),
    ensures
        paren_balance(via_line(v)) == 0,
{
    broadcast use lemma_balance_concat;
    lemma_quoted_free(v.padstack_name@);
    lemma_decimal_free(v.x as int);
    lemma_decimal_free(v.y as int);
    balance_via_head();
    balance_space();
    balance_close_line();
}

proof fn lemma_wire_lines_balance(ws: Seq<RoutedWire>, name: Seq<char>, n: int)
    requires
        n <= ws.len(),
        forall|k: int|
            0 <= k < ws.len() && (#[trigger] ws[k]).net_name@ == name && ws[k].points@.len() >= 2 ==> paren_free(
                ws[k].layer@,
            ),
    ensures
        paren_balance(wire_lines(ws, name, n)) == 0,
    decreases n,
{
    broadcast use lemma_balance_concat;
    if n > 0 {
        lemma_wire_lines_balance(ws, name, n - 1);
        if ws[n - 1].net_name@ == name && ws[n - 1].points@.len() >= 2 {
            lemma_wire_line_balance(ws[n - 1]);
        }
        assert(paren_balance(Seq::<char>::empty()) == 0);
    }
}

proof fn lemma_via_lines_balance(vs: Seq<RoutedVia>, name: Seq<char>, n: int)
    requires
        n <= vs.len(),
        forall|k: int| 0 <= k < vs.len() && (#[trigger] vs[k]).net_name@ == name ==> paren_free(vs[k].padstack_name@),
    ensures
        paren_balance(via_lines(vs, name, n)) == 0,
    decreases n,
{
    broadcast use lemma_balance_concat;
    if n > 0 {
        lemma_via_lines_balance(vs, name, n - 1);
        if vs[n - 1].net_name@ == name {
            lemma_via_line_balance(vs[n - 1]);
        }
        assert(paren_balance(Seq::<char>::empty()) == 0);
    }
}

/// The names a session writes: the design's name and unit, the names of
/// the nets with wires or vias, the layers of the wires written (those of a
/// design net with two points or more), the padstacks of the vias written
/// (those of a design net); none of them holds a parenthesis.
pub open spec fn names_paren_free(d: DesignView, r: RoutingResult) -> bool {
    &&& paren_free(d.name)
    &&& paren_free(d.resolution.unit)
    &&& forall|n: int| 0 <= n < d.nets.len() && net_used(r, d.nets[n].name) ==> paren_free((#[trigger] d.nets[n]).name)
    &&& forall|j: int, k: int|
        0 <= j < r.wires@.len() && 0 <= k < d.nets.len() && (#[trigger] r.wires@[j]).net_name@ == (
        #[trigger] d.nets[k]).name && r.wires@[j].points@.len() >= 2 ==> paren_free(r.wires@[j].layer@)
    &&& forall|j: int, k: int|
        0 <= j < r.vias@.len() && 0 <= k < d.nets.len() && (#[trigger] r.vias@[j]).net_name@ == (
        #[trigger] d.nets[k]).name ==> paren_free(r.vias@[j].padstack_name@)
}

proof fn lemma_net_blocks_balance(d: DesignView, r: RoutingResult, n: int)
    requires
        names_paren_free(d, r),
        n <= d.nets.len(),
    ensures
        paren_balance(net_blocks(d, r, n)) == 0,
    decreases n,
{
    broadcast use lemma_balance_concat;
    if n > 0 {
        lemma_net_blocks_balance(d, r, n - 1);
        let name = d.nets[n - 1].name;
        if net_used(r, name) {
            assert(paren_free(d.nets[n - 1].name));
            lemma_quoted_free(name);
            assert forall|k: int|
                0 <= k < r.wires@.len() && (#[trigger] r.wires@[k]).net_name@ == name && r.wires@[k].points@.len() >= 2
                    implies paren_free(r.wires@[k].layer@) by {
                assert(r.wires@[k].net_name@ == d.nets[n - 1].name);
            }
            assert forall|k: int| 0 <= k < r.vias@.len() && (#[trigger] r.vias@[k]).net_name@ == name implies paren_free(
                r.vias@[k].padstack_name@,
            ) by {
                assert(r.vias@[k].net_name@ == d.nets[n - 1].name);
            }
            lemma_wire_lines_balance(r.wires@, name, r.wires@.len() as int);
            lemma_via_lines_balance(r.vias@, name, r.vias@.len() as int);
        }
        balance_net_head();
        balance_newline();
        balance_net_tail();
        assert(paren_balance(Seq::<char>::empty()) == 0);
    }
}

proof fn lemma_head_balance(d: DesignView)
    requires
        paren_free(d.name),
        paren_free(d.resolution.unit),
    ensures
        paren_balance(session_head(d)) == 3,
{
    broadcast use lemma_balance_concat;
    lemma_quoted_free(d.name);
    assert(paren_free(d.name + ".dsn"@)) by {
        reveal_strlit(".dsn");
        let t = d.name + ".dsn"@;
        assert forall|i: int| 0 <= i < t.len() implies (#[trigger] t[i]) != '(' && t[i] != ')' by {
            if i < d.name.len() {
                assert(t[i] == d.name[i]);
            }
        }
    }
    lemma_quoted_free(d.name + ".dsn"@);
    lemma_free_balance(d.resolution.unit);
    lemma_decimal_free(d.resolution.value as int);
    balance_session_head();
    balance_newline();
    balance_base_design();
    balance_close_line();
    balance_routes();
    balance_resolution();
    balance_space();
    balance_parser();
    balance_string_quote();
    balance_space_in_quoted();
    balance_host_cad();
    balance_host_version();
    balance_close_section();
    balance_network_out();
}

/// A session has as many opening as closing parentheses when none of the
/// names it writes (design, unit, nets, wire layers, via padstacks) holds a
/// parenthesis.
pub proof fn lemma_session_balanced(d: DesignView, r: RoutingResult)
    requires
        names_paren_free(d, r),
    ensures
        paren_balance(session_text(d, r)) == 0,
{
    broadcast use lemma_balance_concat;
    lemma_head_balance(d);
    lemma_net_blocks_balance(d, r, d.nets.len() as int);
    balance_close_section();
    balance_close_routes();
    balance_close_line();
}

// ─── reading a token back ─────────────────────────────────────────────────────

pub proof fn lemma_escaped_front(c: char, rest: Seq<char>)
    ensures
        escaped(seq![c] + rest) == escape_char(c) + escaped(rest),
    decreases rest.len(),
{
    if rest.len() == 0 {
        assert(seq![c] + rest =~= seq![c]);
        assert(seq![c].drop_last() =~= Seq::<char>::empty());
        assert(escaped(Seq::<char>::empty()) == Seq::<char>::empty());
        assert(Seq::<char>::empty() + escape_char(c) =~= escape_char(c));
        assert(escaped(seq![c]) =~= escape_char(c));
    } else {
        lemma_escaped_front(c, rest.drop_last());
        assert((seq![c] + rest).drop_last() =~= seq![c] + rest.drop_last());
        assert((seq![c] + rest).last() == rest.last());
        assert(escaped(seq![c] + rest) =~= escape_char(c) + escaped(rest));
    }
}

/// Reading a quoted body that holds `escaped(s)` and then a closing quote
/// gives back `s`.
pub proof fn lemma_quoted_body_reads(t: Seq<char>, s: Seq<char>, p: int, acc: Seq<char>)
    requires
        0 <= p,
        p + escaped(s).len() < t.len(),
        t.subrange(p, p + escaped(s).len()) == escaped(s),
        t[p + escaped(s).len()] == '"',
    ensures
        quoted_body(t, p, acc) == Ok::<(Seq<char>, int), crate::sexp::ParseFailure>((acc + s, p + escaped(s).len() + 1)),
    decreases s.len(),
{
    if s.len() == 0 {
        assert(acc + s =~= acc);
    } else {
        let c = s[0];
        let rest = s.drop_first();
        assert(s =~= seq![c] + rest);
        lemma_escaped_front(c, rest);
        let e = escape_char(c);
        assert(t[p] == escaped(s)[0]);
        assert(escaped(s)[0] == e[0]);
        assert(t.subrange(p + e.len(), p + e.len() + escaped(rest).len()) =~= escaped(rest)) by {
            assert forall|i: int| 0 <= i < escaped(rest).len() implies t.subrange(p + e.len(), p + e.len() + escaped(rest).len())[i] == escaped(rest)[i] by {
                assert(t[p + e.len() + i] == t.subrange(p, p + escaped(s).len())[e.len() + i]);
                assert(escaped(s)[e.len() + i] == escaped(rest)[i]);
            }
        }
        if c == '\\' || c == '"' {
            assert(t[p + 1] == escaped(s)[1]);
            lemma_quoted_body_reads(t, rest, p + 2, acc.push(c));
            assert(acc.push(c) + rest =~= acc + s);
        } else {
            lemma_quoted_body_reads(t, rest, p + 1, acc.push(c));
            assert(acc.push(c) + rest =~= acc + s);
        }
    }
}

/// An unquoted atom without delimiters or quotes is read to its end.
proof fn lemma_bare_reads(s: Seq<char>, p: int, acc: Seq<char>)
    requires
        0 <= p <= s.len(),
        forall|i: int| p <= i < s.len() ==> !is_delimiter(#[trigger] s[i]) && s[i] != '"',
    ensures
        bare_atom(s, p, acc) == (acc + s.subrange(p, s.len() as int), s.len() as int),
    decreases s.len() - p,
{
    if p == s.len() {
        assert(acc + s.subrange(p, s.len() as int) =~= acc);
    } else {
        assert(!is_delimiter(s[p]) && s[p] != '"');
        lemma_bare_reads(s, p + 1, acc.push(s[p]));
        assert(acc.push(s[p]) + s.subrange(p + 1, s.len() as int) =~= acc + s.subrange(p, s.len() as int));
    }
}

#[verifier::rlimit(40)]
proof fn lemma_quoted_form_reads_back(s: Seq<char>)
    requires
        must_quote(s),
        s.len() == 0 || (s[0] != ')' && !is_white_space(s[0])),
    ensures
        parse_text(quoted_of(s)) == Ok::<SexpView, Seq<char>>(SexpView::Atom(s)),
{
    let q = quoted_of(s);
    let e = escaped(s);
    assert(q =~= seq!['"'] + e + seq!['"']);
    assert(q.subrange(1, 1 + e.len() as int) =~= e);
    lemma_quoted_body_reads(q, s, 1, Seq::empty());
    assert(Seq::<char>::empty() + s =~= s);
    assert(space_end(q, 0) == 0);
    assert(skip_blank(q, 0) == 0);
    if s.len() > 0 {
        lemma_escaped_front(s[0], s.drop_first());
        assert(s =~= seq![s[0]] + s.drop_first());
        assert(q[1] == escape_char(s[0])[0]);
    }
    assert(!lone_quote(q, 0));
    assert(space_end(q, q.len() as int) == q.len());
    assert(skip_blank(q, q.len() as int) == q.len());
    let tail = parse_items(q, q.len() as int);
    assert(tail == Ok::<(Seq<SexpView>, int), crate::sexp::ParseFailure>((Seq::<SexpView>::empty(), q.len() as int)));
    assert(parse_items(q, 0) == prepend(seq![SexpView::Atom(s)], tail));
    assert(seq![SexpView::Atom(s)] + Seq::<SexpView>::empty() =~= seq![SexpView::Atom(s)]);
}

#[verifier::rlimit(40)]
proof fn lemma_bare_form_reads_back(s: Seq<char>)
    requires
        !must_quote(s),
        !starts_comment(s, 0),
    ensures
        parse_text(quoted_of(s)) == Ok::<SexpView, Seq<char>>(SexpView::Atom(s)),
{
    assert(quoted_of(s) == s);
    assert(s.len() > 0);
    assert forall|i: int| 0 <= i < s.len() implies !is_delimiter(#[trigger] s[i]) && s[i] != '"' by {
        if is_delimiter(s[i]) || s[i] == '"' {
            assert(is_white_space(s[i]) || s[i] == '(' || s[i] == ')' || s[i] == '"');
            assert(must_quote(s));
        }
    }
    lemma_bare_reads(s, 0, Seq::empty());
    assert(Seq::<char>::empty() + s.subrange(0, s.len() as int) =~= s);
    assert(space_end(s, 0) == 0);
    assert(skip_blank(s, 0) == 0);
    assert(space_end(s, s.len() as int) == s.len());
    assert(skip_blank(s, s.len() as int) == s.len());
    let tail = parse_items(s, s.len() as int);
    assert(tail == Ok::<(Seq<SexpView>, int), crate::sexp::ParseFailure>((Seq::<SexpView>::empty(), s.len() as int)));
    assert(parse_items(s, 0) == prepend(seq![SexpView::Atom(s)], tail));
    assert(seq![SexpView::Atom(s)] + Seq::<SexpView>::empty() =~= seq![SexpView::Atom(s)]);
}

/// A token as the session writes it reads back as the same atom, unless it
/// is written in quotes and starts with white space or `)` (the reader then
/// takes the quote alone), or is written bare and starts a comment.
pub proof fn lemma_quoted_reads_back(s: Seq<char>)
    requires
        must_quote(s) ==> s.len() == 0 || (s[0] != ')' && !is_white_space(s[0])),
        !must_quote(s) ==> !starts_comment(s, 0),
    ensures
        parse_text(quoted_of(s)) == Ok::<SexpView, Seq<char>>(SexpView::Atom(s)),
{
    if must_quote(s) {
        lemma_quoted_form_reads_back(s);
    } else {
        lemma_bare_form_reads_back(s);
    }
}

} // verus!

//! Character-level helpers shared by the parsers and the session writer.

use vstd::prelude::*;

verus! {

/// Unicode `White_Space`, the property that `char::is_whitespace` reports.
pub open spec fn is_white_space(c: char) -> bool {
    let u = c as u32;
    ||| 0x09 <= u <= 0x0D
    ||| u == 0x20
    ||| u == 0x85
    ||| u == 0xA0
    ||| u == 0x1680
    ||| 0x2000 <= u <= 0x200A
    ||| u == 0x2028
    ||| u == 0x2029
    ||| u == 0x202F
    ||| u == 0x205F
    ||| u == 0x3000
}

/// Whether `c` is white space in the sense of Unicode `White_Space`.
pub fn is_whitespace(c: char) -> (r: bool)
    ensures
        r == is_white_space(c),
{
    let u = c as u32;
    (0x09 <= u && u <= 0x0D) || u == 0x20 || u == 0x85 || u == 0xA0 || u == 0x1680 || (0x2000
        <= u && u <= 0x200A) || u == 0x2028 || u == 0x2029 || u == 0x202F || u == 0x205F || u
        == 0x3000
}

/// The code points that Unicode gives the `White_Space` property: the
/// controls tab, line feed, vertical tab, form feed and carriage return,
/// space, next line, no-break space, ogham space mark, the eleven spaces from
/// en quad to hair space, line and paragraph separators, narrow no-break
/// space, medium mathematical space and ideographic space.
pub open spec fn unicode_white_space() -> Set<u32> {
    set![
        0x0009u32, 0x000A, 0x000B, 0x000C, 0x000D, 0x0020, 0x0085, 0x00A0, 0x1680,
        0x2000, 0x2001, 0x2002, 0x2003, 0x2004, 0x2005, 0x2006, 0x2007, 0x2008, 0x2009, 0x200A,
        0x2028, 0x2029, 0x202F, 0x205F, 0x3000,
    ]
}

/// A character is white space exactly when its code point is one that
/// Unicode marks `White_Space`; in particular line feed and carriage return
/// both are, so both ends of a CRLF line end are white space.
pub proof fn lemma_white_space_is_unicode(c: char)
    ensures
        is_white_space(c) <==> unicode_white_space().contains(c as u32),
{
}

/// The characters of `s`, in order.
pub fn chars_of(s: &str) -> (v: Vec<char>)
    ensures
        v@ == s@,
{
    let mut v: Vec<char> = Vec::new();
    for c in it: s.chars()
        invariant
            v@ == it.seq().take(it.index()),
    {
        v.push(c);
    }
    v
}

/// Builds a `String` from its characters (`String::from_iter`).
#[verifier::external_body]
pub(crate) fn string_from_chars(v: Vec<char>) -> (s: String)
    ensures
        s@ == v@,
{
    String::from_iter(v)
}

/// Whether two strings hold the same characters.
pub fn str_eq(a: &str, b: &str) -> (r: bool)
    ensures
        r == (a@ == b@),
{
    let x = chars_of(a);
    let y = chars_of(b);
    if x.len() != y.len() {
        return false;
    }
    let mut i: usize = 0;
    while i < x.len()
        invariant
            x@ == a@,
            y@ == b@,
            x.len() == y.len(),
            i <= x.len(),
            forall|k: int| 0 <= k < i ==> x@[k] == y@[k],
        decreases x.len() - i,
    {
        if x[i] != y[i] {
            return false;
        }
        i = i + 1;
    }
    assert(x@ =~= y@);
    true
}

/// The decimal digit character for `d` in `0..10`.
pub open spec fn digit_char(d: int) -> char {
    (48 + d) as char
}

/// The decimal digits of `n`, most significant first, without leading zeros.
pub open spec fn digits_of(n: nat) -> Seq<char>
    decreases n,
{
    if n < 10 {
        seq![digit_char(n as int)]
    } else {
        digits_of(n / 10).push(digit_char((n % 10) as int))
    }
}

/// An integer in decimal, with a leading `-` when it is negative.
pub open spec fn decimal_of(n: int) -> Seq<char> {
    if n < 0 {
        seq!['-'] + digits_of((-n) as nat)
    } else {
        digits_of(n as nat)
    }
}

fn digit_at(d: u64) -> (c: char)
    requires
        d < 10,
    ensures
        c == digit_char(d as int),
{
    if d == 0 {
        '0'
    } else if d == 1 {
        '1'
    } else if d == 2 {
        '2'
    } else if d == 3 {
        '3'
    } else if d == 4 {
        '4'
    } else if d == 5 {
        '5'
    } else if d == 6 {
        '6'
    } else if d == 7 {
        '7'
    } else if d == 8 {
        '8'
    } else {
        '9'
    }
}

/// Appends `n` in decimal to `out`.
pub fn push_decimal(out: &mut Vec<char>, n: i64)
    ensures
        final(out)@ == old(out)@ + decimal_of(n as int),
{
    let ghost base = out@;
    let mut m: u64 = if n < 0 {
        out.push('-');
        (0 - (n as i128)) as u64
    } else {
        n as u64
    };
    let ghost m0 = m as nat;
    let ghost pre = out@;
    proof {
        if n < 0 {
            assert(pre == base + seq!['-']);
        } else {
            assert(pre == base);
        }
    }
    let mut tmp: Vec<char> = Vec::new();
    while m >= 10
        invariant
            digits_of(m0) == digits_of(m as nat) + tmp@.reverse(),
        decreases m,
    {
        let d = digit_at(m % 10);
        let ghost t0 = tmp@;
        proof {
            assert(digits_of(m as nat) == digits_of((m / 10) as nat).push(d));
            assert(tmp@.push(d).reverse() =~= seq![d] + t0.reverse());
            assert(digits_of((m / 10) as nat).push(d) + t0.reverse() =~= digits_of((m / 10) as nat) + (seq![d] + t0.reverse()));
        }
        tmp.push(d);
        m = m / 10;
    }
    let c = digit_at(m);
    out.push(c);
    let n2 = tmp.len();
    let mut j = n2;
    while j > 0
        invariant
            j <= n2,
            n2 == tmp@.len(),
            out@ == pre + seq![c] + tmp@.reverse().take(n2 - j),
        decreases j,
    {
        j = j - 1;
        let ghost o0 = out@;
        out.push(tmp[j]);
        proof {
            assert(tmp@.reverse().take(n2 - j) =~= tmp@.reverse().take(n2 - j - 1).push(tmp@[j as int]));
        }
    }
    proof {
        assert(tmp@.reverse().take(n2 as int) =~= tmp@.reverse());
        assert(digits_of(m as nat) == seq![c]);
        assert(out@ =~= pre + digits_of(m0));
        if n < 0 {
            assert(m0 == -n);
            assert(out@ =~= base + decimal_of(n as int));
        } else {
            assert(out@ =~= base + decimal_of(n as int));
        }
    }
}

} // verus!

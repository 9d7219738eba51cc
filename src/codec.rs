//! The character-level JSON text used by the settings and session files:
//! decimal numbers, escaped strings and booleans, how they are written, and
//! how they are read back.

use vstd::prelude::*;

verus! {

/// An ASCII decimal digit.
pub open spec fn is_digit(c: char) -> bool {
    '0' <= c && c <= '9'
}

/// The ASCII digit for `d < 10`.
pub open spec fn digit_char(d: nat) -> char {
    ((d + 48) as u8) as char
}

/// The value of an ASCII digit.
pub open spec fn digit_value(c: char) -> nat {
    ((c as u32) - 48) as nat
}

/// The canonical decimal text of `n`: no sign, no leading zero.
pub open spec fn decimal(n: nat) -> Seq<char>
    decreases n,
{
    if n < 10 {
        seq![digit_char(n)]
    } else {
        decimal(n / 10).push(digit_char(n % 10))
    }
}

/// The value of a string of digits, read left to right.
pub open spec fn digits_value(s: Seq<char>) -> nat
    decreases s.len(),
{
    if s.len() == 0 {
        0
    } else {
        digits_value(s.drop_last()) * 10 + digit_value(s.last())
    }
}

/// The canonical text of a signed integer.
pub open spec fn integer_text(n: int) -> Seq<char> {
    if n < 0 {
        seq!['-'] + decimal((-n) as nat)
    } else {
        decimal(n as nat)
    }
}

/// A lower-case hexadecimal digit for `d < 16`.
pub open spec fn hex_char(d: nat) -> char {
    if d < 10 {
        digit_char(d)
    } else {
        ((d + 87) as u8) as char
    }
}

/// The letter of the two-character escape of `c`, for the characters that have one.
pub open spec fn short_escape(c: char) -> Option<char> {
    if c == '"' || c == '\\' {
        Some(c)
    } else if c as u32 == 8 {
        Some('b')
    } else if c as u32 == 9 {
        Some('t')
    } else if c as u32 == 10 {
        Some('n')
    } else if c as u32 == 12 {
        Some('f')
    } else if c as u32 == 13 {
        Some('r')
    } else {
        None
    }
}

/// How one character stands inside a JSON string: quote, backslash and
/// control characters escaped, everything else as it is.
pub open spec fn escape_char(c: char) -> Seq<char> {
    match short_escape(c) {
        Some(e) => seq!['\\', e],
        None => if (c as u32) < 32 {
            seq!['\\', 'u', '0', '0', hex_char((c as u32 / 16) as nat), hex_char((c as u32 % 16) as nat)]
        } else {
            seq![c]
        },
    }
}

/// The escaped body of a JSON string.
pub open spec fn escaped(s: Seq<char>) -> Seq<char>
    decreases s.len(),
{
    if s.len() == 0 {
        Seq::empty()
    } else {
        escape_char(s[0]) + escaped(s.drop_first())
    }
}

/// A JSON string literal holding `s`.
pub open spec fn quoted(s: Seq<char>) -> Seq<char> {
    seq!['"'] + escaped(s) + seq!['"']
}

/// A JSON boolean.
pub open spec fn bool_text(b: bool) -> Seq<char> {
    if b {
        "true"@
    } else {
        "false"@
    }
}

/// `x` stands in `t` at position `pos`.
pub open spec fn starts_at(t: Seq<char>, pos: int, x: Seq<char>) -> bool {
    0 <= pos && pos + x.len() <= t.len() && t.subrange(pos, pos + x.len()) == x
}

// ---------------------------------------------------------------- lemmas

pub proof fn lemma_starts_at_split(t: Seq<char>, pos: int, x: Seq<char>, y: Seq<char>)
    requires
        starts_at(t, pos, x + y),
    ensures
        starts_at(t, pos, x),
        starts_at(t, pos + x.len(), y),
{
    let w = t.subrange(pos, pos + x.len() + y.len());
    assert(w == x + y);
    assert(t.subrange(pos, pos + x.len()) =~= w.subrange(0, x.len() as int));
    assert(x =~= (x + y).subrange(0, x.len() as int));
    assert(t.subrange(pos + x.len(), pos + x.len() + y.len()) =~= w.subrange(
        x.len() as int,
        (x.len() + y.len()) as int,
    ));
    assert(y =~= (x + y).subrange(x.len() as int, (x.len() + y.len()) as int));
}

pub proof fn lemma_starts_at_join(t: Seq<char>, pos: int, x: Seq<char>, y: Seq<char>)
    requires
        starts_at(t, pos, x),
        starts_at(t, pos + x.len(), y),
    ensures
        starts_at(t, pos, x + y),
{
    assert(t.subrange(pos, pos + x.len() + y.len()) =~= t.subrange(pos, pos + x.len())
        + t.subrange(pos + x.len(), pos + x.len() + y.len()));
}

pub proof fn lemma_escape_char_shape(c: char)
    ensures
        escape_char(c).len() >= 1,
        escape_char(c)[0] != '"',
        (escape_char(c)[0] == '\\') == (short_escape(c) is Some || (c as u32) < 32),
        (c as u32) < 32 ==> escape_char(c)[0] == '\\',
{
}

pub proof fn lemma_escaped_push(s: Seq<char>, c: char)
    ensures
        escaped(s.push(c)) == escaped(s) + escape_char(c),
    decreases s.len(),
{
    if s.len() == 0 {
        assert(s.push(c).drop_first() =~= Seq::<char>::empty());
        assert(escaped(Seq::<char>::empty()) == Seq::<char>::empty());
        assert(s =~= Seq::<char>::empty());
        assert(escaped(s.push(c)) == escape_char(c) + escaped(Seq::<char>::empty()));
        assert(escaped(s.push(c)) =~= escape_char(c));
    } else {
        assert(s.push(c).drop_first() =~= s.drop_first().push(c));
        lemma_escaped_push(s.drop_first(), c);
        assert(escaped(s.push(c)) =~= escaped(s) + escape_char(c));
    }
}

pub proof fn lemma_hex_char(d: nat)
    requires
        d < 16,
    ensures
        hex_char(d) as u32 == (if d < 10 { d + 48 } else { d + 87 }),
{
}

/// Two escaped characters that start the same text are the same character.
pub proof fn lemma_escape_char_unique(c1: char, c2: char, x: Seq<char>, y: Seq<char>)
    requires
        escape_char(c1) + x == escape_char(c2) + y,
    ensures
        c1 == c2,
        x == y,
{
    let e1 = escape_char(c1);
    let e2 = escape_char(c2);
    assert((e1 + x)[0] == e1[0]);
    assert((e2 + y)[0] == e2[0]);
    lemma_escape_char_shape(c1);
    lemma_escape_char_shape(c2);
    if e1[0] == '\\' {
        assert((e1 + x)[1] == e1[1]);
        assert((e2 + y)[1] == e2[1]);
        if (c1 as u32) < 32 && short_escape(c1) is None {
            assert(e1[1] == 'u');
            assert(e2[1] == 'u');
            assert(short_escape(c2) is None && (c2 as u32) < 32);
            assert((e1 + x)[4] == e1[4]);
            assert((e2 + y)[4] == e2[4]);
            assert((e1 + x)[5] == e1[5]);
            assert((e2 + y)[5] == e2[5]);
            lemma_hex_char((c1 as u32 / 16) as nat);
            lemma_hex_char((c2 as u32 / 16) as nat);
            lemma_hex_char((c1 as u32 % 16) as nat);
            lemma_hex_char((c2 as u32 % 16) as nat);
            assert(c1 as u32 == c2 as u32);
        } else {
            assert(short_escape(c1) is Some);
            assert(short_escape(c2) is Some);
            assert(c1 as u32 == c2 as u32);
        }
    } else {
        assert(c1 as u32 == c2 as u32);
    }
    assert(e1 == e2);
    assert(x =~= (e1 + x).subrange(e1.len() as int, (e1 + x).len() as int));
    assert(y =~= (e2 + y).subrange(e2.len() as int, (e2 + y).len() as int));
}

/// An escaped string body followed by a quote can be read back one way only.
pub proof fn lemma_escaped_unique(a: Seq<char>, b: Seq<char>, x: Seq<char>, y: Seq<char>)
    requires
        escaped(a) + (seq!['"'] + x) == escaped(b) + (seq!['"'] + y),
    ensures
        a == b,
        x == y,
    decreases a.len(),
{
    if a.len() == 0 {
        if b.len() > 0 {
            lemma_escape_char_shape(b[0]);
            assert((escaped(b) + (seq!['"'] + y))[0] == escape_char(b[0])[0]);
            assert((escaped(a) + (seq!['"'] + x))[0] == '"');
        }
        assert(x =~= (escaped(a) + (seq!['"'] + x)).drop_first());
        assert(y =~= (escaped(b) + (seq!['"'] + y)).drop_first());
    } else {
        if b.len() == 0 {
            lemma_escape_char_shape(a[0]);
            assert((escaped(a) + (seq!['"'] + x))[0] == escape_char(a[0])[0]);
            assert((escaped(b) + (seq!['"'] + y))[0] == '"');
        } else {
            let ra = escaped(a.drop_first()) + (seq!['"'] + x);
            let rb = escaped(b.drop_first()) + (seq!['"'] + y);
            assert(escaped(a) + (seq!['"'] + x) =~= escape_char(a[0]) + ra);
            assert(escaped(b) + (seq!['"'] + y) =~= escape_char(b[0]) + rb);
            lemma_escape_char_unique(a[0], b[0], ra, rb);
            lemma_escaped_unique(a.drop_first(), b.drop_first(), x, y);
            assert(a =~= seq![a[0]] + a.drop_first());
            assert(b =~= seq![b[0]] + b.drop_first());
        }
    }
}

/// A JSON string literal can be read back one way only.
pub proof fn lemma_quoted_unique(a: Seq<char>, b: Seq<char>, x: Seq<char>, y: Seq<char>)
    requires
        quoted(a) + x == quoted(b) + y,
    ensures
        a == b,
        x == y,
{
    assert(quoted(a) + x =~= seq!['"'] + (escaped(a) + (seq!['"'] + x)));
    assert(quoted(b) + y =~= seq!['"'] + (escaped(b) + (seq!['"'] + y)));
    assert((escaped(a) + (seq!['"'] + x)) =~= (quoted(a) + x).drop_first());
    assert((escaped(b) + (seq!['"'] + y)) =~= (quoted(b) + y).drop_first());
    lemma_escaped_unique(a, b, x, y);
}

pub proof fn lemma_digit_char(d: nat)
    requires
        d < 10,
    ensures
        is_digit(digit_char(d)),
        digit_value(digit_char(d)) == d,
        digit_char(d) == '0' <==> d == 0,
{
}

pub proof fn lemma_digit_value(c: char)
    requires
        is_digit(c),
    ensures
        digit_value(c) < 10,
        digit_char(digit_value(c)) == c,
{
}

pub proof fn lemma_decimal_shape(n: nat)
    ensures
        decimal(n).len() >= 1,
        forall|i: int| 0 <= i < decimal(n).len() ==> is_digit(#[trigger] decimal(n)[i]),
        decimal(n)[0] == '0' ==> n == 0,
        n == 0 ==> decimal(n) == seq!['0'],
        digits_value(decimal(n)) == n,
    decreases n,
{
    if n < 10 {
        lemma_digit_char(n);
        let s = decimal(n);
        assert(s.drop_last() =~= Seq::<char>::empty());
        assert(digits_value(s) == digits_value(s.drop_last()) * 10 + digit_value(s.last()));
    } else {
        lemma_decimal_shape(n / 10);
        lemma_digit_char(n % 10);
        let s = decimal(n);
        assert(s.drop_last() =~= decimal(n / 10));
        assert(s[0] == decimal(n / 10)[0]);
        assert(forall|i: int| 0 <= i < s.len() - 1 ==> s[i] == decimal(n / 10)[i]);
    }
}

pub proof fn lemma_digits_value_positive(s: Seq<char>)
    requires
        s.len() >= 1,
        forall|i: int| 0 <= i < s.len() ==> is_digit(#[trigger] s[i]),
        s[0] != '0',
    ensures
        digits_value(s) >= 1,
    decreases s.len(),
{
    if s.len() > 1 {
        let p = s.drop_last();
        assert(p[0] == s[0]);
        assert(forall|i: int| 0 <= i < p.len() ==> p[i] == s[i]);
        lemma_digits_value_positive(p);
    }
}

/// A string of digits without a leading zero is the canonical text of its value.
pub proof fn lemma_decimal_canonical(s: Seq<char>)
    requires
        s.len() >= 1,
        forall|i: int| 0 <= i < s.len() ==> is_digit(#[trigger] s[i]),
        s[0] != '0' || s.len() == 1,
    ensures
        decimal(digits_value(s)) == s,
    decreases s.len(),
{
    let p = s.drop_last();
    lemma_digit_value(s.last());
    if s.len() == 1 {
        assert(p =~= Seq::<char>::empty());
        assert(digits_value(p) == 0);
        assert(digits_value(s) == digit_value(s.last()));
        assert(s =~= seq![digit_char(digit_value(s.last()))]);
    } else {
        assert(p[0] == s[0]);
        assert(forall|i: int| 0 <= i < p.len() ==> p[i] == s[i]);
        lemma_decimal_canonical(p);
        lemma_digits_value_positive(p);
        let v = digits_value(p);
        let d = digit_value(s.last());
        assert((v * 10 + d) / 10 == v && (v * 10 + d) % 10 == d) by (nonlinear_arith)
            requires
                d < 10,
        ;
        assert(digits_value(s) == v * 10 + d);
        assert(v * 10 + d >= 10);
        assert(decimal(v * 10 + d) == decimal(((v * 10 + d) / 10) as nat).push(
            digit_char(((v * 10 + d) % 10) as nat),
        ));
        assert(s =~= p.push(s.last()));
    }
}

/// Canonical decimal numbers followed by something other than a digit can be
/// read back one way only.
pub proof fn lemma_decimal_unique(n: nat, m: nat, x: Seq<char>, y: Seq<char>)
    requires
        decimal(n) + x == decimal(m) + y,
        x.len() == 0 || !is_digit(x[0]),
        y.len() == 0 || !is_digit(y[0]),
    ensures
        n == m,
        x == y,
{
    let a = decimal(n);
    let b = decimal(m);
    lemma_decimal_shape(n);
    lemma_decimal_shape(m);
    if a.len() < b.len() {
        assert((b + y)[a.len() as int] == b[a.len() as int]);
        assert((a + x).len() > a.len());
        assert((a + x)[a.len() as int] == x[0]);
    } else if b.len() < a.len() {
        assert((a + x)[b.len() as int] == a[b.len() as int]);
        assert((b + y).len() > b.len());
        assert((b + y)[b.len() as int] == y[0]);
    }
    assert(a =~= (a + x).subrange(0, a.len() as int));
    assert(b =~= (b + y).subrange(0, b.len() as int));
    assert(x =~= (a + x).subrange(a.len() as int, (a + x).len() as int));
    assert(y =~= (b + y).subrange(b.len() as int, (b + y).len() as int));
}

/// Two string literals read at the same place are the same.
pub proof fn lemma_quoted_at_unique(t: Seq<char>, pos: int, x: Seq<char>, y: Seq<char>)
    requires
        starts_at(t, pos, quoted(x)),
        starts_at(t, pos, quoted(y)),
    ensures
        x == y,
{
    let rest_x = t.subrange(pos + quoted(x).len(), t.len() as int);
    let rest_y = t.subrange(pos + quoted(y).len(), t.len() as int);
    assert(t.subrange(pos, t.len() as int) =~= quoted(x) + rest_x);
    assert(t.subrange(pos, t.len() as int) =~= quoted(y) + rest_y);
    lemma_quoted_unique(x, y, rest_x, rest_y);
}

/// Two numbers read at the same place are the same.
pub proof fn lemma_natural_at_unique(t: Seq<char>, pos: int, n: nat, e: int, m: nat, f: int)
    requires
        natural_at(t, pos, n, e),
        natural_at(t, pos, m, f),
    ensures
        n == m,
        e == f,
{
    let x = t.subrange(e, t.len() as int);
    let y = t.subrange(f, t.len() as int);
    assert(t.subrange(pos, t.len() as int) =~= decimal(n) + x);
    assert(t.subrange(pos, t.len() as int) =~= decimal(m) + y);
    if x.len() > 0 {
        assert(x[0] == t[e]);
    }
    if y.len() > 0 {
        assert(y[0] == t[f]);
    }
    lemma_decimal_unique(n, m, x, y);
}

/// Two integers read at the same place are the same.
pub proof fn lemma_integer_at_unique(t: Seq<char>, pos: int, n: int, e: int, m: int, f: int)
    requires
        integer_at(t, pos, n, e),
        integer_at(t, pos, m, f),
    ensures
        n == m,
        e == f,
{
    assert(t.subrange(pos, pos + integer_text(n).len())[0] == t[pos]);
    assert(t.subrange(pos, pos + integer_text(m).len())[0] == t[pos]);
    if n < 0 {
        lemma_starts_at_split(t, pos, seq!['-'], decimal((-n) as nat));
    } else {
        lemma_decimal_shape(n as nat);
    }
    if m < 0 {
        lemma_starts_at_split(t, pos, seq!['-'], decimal((-m) as nat));
    } else {
        lemma_decimal_shape(m as nat);
    }
    if n < 0 && m < 0 {
        lemma_natural_at_unique(t, pos + 1, (-n) as nat, e, (-m) as nat, f);
    } else if n >= 0 && m >= 0 {
        lemma_natural_at_unique(t, pos, n as nat, e, m as nat, f);
    }
}

/// Two booleans read at the same place are the same.
pub proof fn lemma_bool_at_unique(t: Seq<char>, pos: int, a: bool, b: bool)
    requires
        starts_at(t, pos, bool_text(a)),
        starts_at(t, pos, bool_text(b)),
    ensures
        a == b,
{
    reveal_strlit("true");
    reveal_strlit("false");
    assert(t.subrange(pos, pos + bool_text(a).len())[0] == t[pos]);
    assert(t.subrange(pos, pos + bool_text(b).len())[0] == t[pos]);
}

// ---------------------------------------------------------------- writing

/// Relies on `String::push`: appends one character.
#[verifier::external_body]
pub(crate) fn push_char(out: &mut String, c: char)
    ensures
        final(out)@ == old(out)@.push(c),
{
    out.push(c);
}

fn digit_to_char(d: u64) -> (c: char)
    requires
        d < 10,
    ensures
        c == digit_char(d as nat),
{
    ((d as u8) + 48) as char
}

fn hex_to_char(d: u32) -> (c: char)
    requires
        d < 16,
    ensures
        c == hex_char(d as nat),
{
    if d < 10 {
        ((d as u8) + 48) as char
    } else {
        ((d as u8) + 87) as char
    }
}

/// Appends the canonical decimal text of `n`.
pub fn push_decimal(out: &mut String, n: u64)
    ensures
        final(out)@ == old(out)@ + decimal(n as nat),
    decreases n,
{
    if n >= 10 {
        push_decimal(out, n / 10);
    }
    push_char(out, digit_to_char(n % 10));
    proof {
        if n < 10 {
            assert(decimal(n as nat) =~= seq![digit_char(n as nat)]);
        } else {
            assert(decimal(n as nat) == decimal((n / 10) as nat).push(digit_char((n % 10) as nat)));
        }
        assert(out@ =~= old(out)@ + decimal(n as nat));
    }
}

/// Appends the canonical text of a signed integer.
pub fn push_integer(out: &mut String, n: i64)
    ensures
        final(out)@ == old(out)@ + integer_text(n as int),
{
    if n < 0 {
        push_char(out, '-');
        let m: u64 = (-(n as i128)) as u64;
        push_decimal(out, m);
        assert(out@ =~= old(out)@ + integer_text(n as int));
    } else {
        push_decimal(out, n as u64);
    }
}

/// Appends a JSON boolean.
pub fn push_bool(out: &mut String, b: bool)
    ensures
        final(out)@ == old(out)@ + bool_text(b),
{
    if b {
        out.append("true");
    } else {
        out.append("false");
    }
}

/// Appends one character as it stands inside a JSON string.
fn push_escaped_char(out: &mut String, c: char)
    ensures
        final(out)@ == old(out)@ + escape_char(c),
{
    let code = c as u32;
    if c == '"' {
        push_char(out, '\\');
        push_char(out, '"');
    } else if c == '\\' {
        push_char(out, '\\');
        push_char(out, '\\');
    } else if code == 8 {
        push_char(out, '\\');
        push_char(out, 'b');
    } else if code == 9 {
        push_char(out, '\\');
        push_char(out, 't');
    } else if code == 10 {
        push_char(out, '\\');
        push_char(out, 'n');
    } else if code == 12 {
        push_char(out, '\\');
        push_char(out, 'f');
    } else if code == 13 {
        push_char(out, '\\');
        push_char(out, 'r');
    } else if code < 32 {
        push_char(out, '\\');
        push_char(out, 'u');
        push_char(out, '0');
        push_char(out, '0');
        push_char(out, hex_to_char(code / 16));
        push_char(out, hex_to_char(code % 16));
    } else {
        push_char(out, c);
    }
    assert(out@ =~= old(out)@ + escape_char(c));
}

/// The characters of a string, in order.
pub fn chars_of(s: &str) -> (r: Vec<char>)
    ensures
        r@ == s@,
{
    let mut v: Vec<char> = Vec::new();
    for c in it: s.chars()
        invariant
            v@ == it.seq().take(it.index() as int),
    {
        v.push(c);
    }
    v
}

/// Whether two strings hold the same characters.
pub fn same_text(a: &str, b: &str) -> (r: bool)
    ensures
        r == (a@ == b@),
{
    let x = chars_of(a);
    let y = chars_of(b);
    if x.len() != y.len() {
        return false;
    }
    let mut i: usize = 0;
    while i < x.len()
        invariant
            i <= x.len(),
            x.len() == y.len(),
            x@ == a@,
            y@ == b@,
            forall|j: int| 0 <= j < i ==> x@[j] == y@[j],
        decreases x.len() - i,
    {
        if x[i] != y[i] {
            return false;
        }
        i = i + 1;
    }
    assert(x@ =~= y@);
    true
}

/// The value of `s` where it is a non-empty run of ASCII digits whose value
/// fits in a `u64`.
pub open spec fn digits_u64(s: Seq<char>) -> Option<u64> {
    if s.len() > 0 && (forall|i: int| 0 <= i < s.len() ==> is_digit(#[trigger] s[i]))
        && digits_value(s) <= u64::MAX {
        Some(digits_value(s) as u64)
    } else {
        None
    }
}

proof fn lemma_digits_value_grows(s: Seq<char>, c: char)
    requires
        is_digit(c),
    ensures
        digits_value(s.push(c)) >= digits_value(s),
        digits_value(s.push(c)) == digits_value(s) * 10 + digit_value(c),
{
    assert(s.push(c).drop_last() =~= s);
}

/// Reads a non-empty run of ASCII digits as a `u64`.
pub fn parse_u64(s: &str) -> (r: Option<u64>)
    ensures
        r == digits_u64(s@),
{
    let cs = chars_of(s);
    if cs.len() == 0 {
        return None;
    }
    let mut v: u64 = 0;
    let mut i: usize = 0;
    while i < cs.len()
        invariant
            i <= cs.len(),
            cs@ == s@,
            forall|j: int| 0 <= j < i ==> is_digit(#[trigger] cs@[j]),
            v == digits_value(cs@.take(i as int)),
        decreases cs.len() - i,
    {
        let c = cs[i];
        if !is_digit_exec(c) {
            return None;
        }
        let d: u64 = (c as u32 - 48) as u64;
        proof {
            lemma_digits_value_grows(cs@.take(i as int), c);
            assert(cs@.take(i + 1) =~= cs@.take(i as int).push(c));
        }
        if v > (u64::MAX - d) / 10 {
            assert(v * 10 + d > u64::MAX) by (nonlinear_arith)
                requires
                    v > (u64::MAX - d) / 10,
                    d < 10,
            ;
            proof {
                assert(cs@.take(cs@.len() as int) =~= s@);
                if forall|j: int| 0 <= j < cs@.len() ==> is_digit(#[trigger] cs@[j]) {
                    lemma_digits_value_prefix(cs@, i + 1, cs@.len() as int);
                }
            }
            return None;
        }
        assert(v * 10 + d <= u64::MAX) by (nonlinear_arith)
            requires
                v <= (u64::MAX - d) / 10,
                d < 10,
        ;
        v = v * 10 + d;
        i = i + 1;
    }
    assert(cs@.take(i as int) =~= s@);
    Some(v)
}

/// The value of a run of digits does not fall as digits are added.
proof fn lemma_digits_value_prefix(s: Seq<char>, a: int, b: int)
    requires
        0 <= a <= b <= s.len(),
        forall|j: int| a <= j < b ==> is_digit(#[trigger] s[j]),
    ensures
        digits_value(s.take(b)) >= digits_value(s.take(a)),
    decreases b - a,
{
    if a < b {
        lemma_digits_value_prefix(s, a, b - 1);
        lemma_digits_value_grows(s.take(b - 1), s[b - 1]);
        assert(s.take(b) =~= s.take(b - 1).push(s[b - 1]));
    }
}

/// Appends `s` as a JSON string literal.
pub fn push_quoted(out: &mut String, s: &str)
    ensures
        final(out)@ == old(out)@ + quoted(s@),
{
    let cs = chars_of(s);
    push_char(out, '"');
    let mut i: usize = 0;
    while i < cs.len()
        invariant
            i <= cs.len(),
            out@ == old(out)@ + seq!['"'] + escaped(cs@.take(i as int)),
        decreases cs.len() - i,
    {
        proof {
            lemma_escaped_push(cs@.take(i as int), cs@[i as int]);
            assert(cs@.take(i as int).push(cs@[i as int]) =~= cs@.take(i + 1));
        }
        push_escaped_char(out, cs[i]);
        i = i + 1;
        assert(out@ =~= old(out)@ + seq!['"'] + escaped(cs@.take(i as int)));
    }
    push_char(out, '"');
    assert(cs@.take(i as int) =~= s@);
    assert(out@ =~= old(out)@ + quoted(s@));
}

// ---------------------------------------------------------------- reading

/// The canonical decimal text of `n` stands in `t` at `pos` and ends at `end`,
/// where no further digit follows.
pub open spec fn natural_at(t: Seq<char>, pos: int, n: nat, end: int) -> bool {
    &&& starts_at(t, pos, decimal(n))
    &&& end == pos + decimal(n).len()
    &&& (end == t.len() || !is_digit(t[end]))
}

/// The canonical text of the integer `n` stands in `t` at `pos` and ends at
/// `end`, where no further digit follows.
pub open spec fn integer_at(t: Seq<char>, pos: int, n: int, end: int) -> bool {
    &&& starts_at(t, pos, integer_text(n))
    &&& end == pos + integer_text(n).len()
    &&& (end == t.len() || !is_digit(t[end]))
}

pub proof fn lemma_escaped_concat(a: Seq<char>, b: Seq<char>)
    ensures
        escaped(a + b) == escaped(a) + escaped(b),
    decreases a.len(),
{
    if a.len() == 0 {
        assert(a + b =~= b);
        assert(escaped(a) == Seq::<char>::empty());
        assert(escaped(a + b) =~= escaped(a) + escaped(b));
    } else {
        assert((a + b).drop_first() =~= a.drop_first() + b);
        assert((a + b)[0] == a[0]);
        lemma_escaped_concat(a.drop_first(), b);
        assert(escaped(a + b) =~= escaped(a) + escaped(b));
    }
}

/// The escaped text of `x` split at its `k`-th character.
pub proof fn lemma_escaped_at(x: Seq<char>, k: int)
    requires
        0 <= k < x.len(),
    ensures
        escaped(x) == escaped(x.take(k)) + (escape_char(x[k]) + escaped(x.skip(k + 1))),
{
    let one = seq![x[k]];
    assert(x =~= x.take(k) + (one + x.skip(k + 1)));
    lemma_escaped_concat(x.take(k), one + x.skip(k + 1));
    lemma_escaped_concat(one, x.skip(k + 1));
    assert(one.drop_first() =~= Seq::<char>::empty());
    assert(escaped(one) =~= escape_char(x[k]) + escaped(Seq::<char>::empty()));
    assert(escaped(one) =~= escape_char(x[k]));
}

/// Whether `lit` stands in `t` at `pos`: the position after it, or `None`.
pub fn expect(t: &Vec<char>, pos: usize, lit: &str) -> (r: Option<usize>)
    ensures
        r == (if starts_at(t@, pos as int, lit@) {
            Some((pos + lit@.len()) as usize)
        } else {
            None::<usize>
        }),
        r matches Some(e) ==> e == pos + lit@.len(),
{
    let l = chars_of(lit);
    if pos > t.len() || l.len() > t.len() - pos {
        return None;
    }
    let mut i: usize = 0;
    while i < l.len()
        invariant
            i <= l.len(),
            pos + l.len() <= t.len(),
            l@ == lit@,
            forall|j: int| 0 <= j < i ==> t@[pos + j] == l@[j],
        decreases l.len() - i,
    {
        if t[pos + i] != l[i] {
            assert(t@.subrange(pos as int, pos + l.len())[i as int] != l@[i as int]);
            return None;
        }
        i = i + 1;
    }
    assert(t@.subrange(pos as int, pos + l.len()) =~= lit@);
    Some(pos + l.len())
}

fn is_digit_exec(c: char) -> (r: bool)
    ensures
        r == is_digit(c),
{
    '0' <= c && c <= '9'
}

/// Reads a canonical decimal number at `pos` that fits in a `u64`.
pub fn parse_natural(t: &Vec<char>, pos: usize) -> (r: Option<(u64, usize)>)
    ensures
        r matches Some((n, end)) ==> natural_at(t@, pos as int, n as nat, end as int),
        forall|n: nat, end: int|
            #![trigger natural_at(t@, pos as int, n, end)]
            natural_at(t@, pos as int, n, end) && n <= u64::MAX ==> r == Some(
                (n as u64, end as usize),
            ),
{
    if pos >= t.len() {
        return None;
    }
    let mut i: usize = pos;
    let mut v: u64 = 0;
    let mut overflow = false;
    while i < t.len() && is_digit_exec(t[i])
        invariant
            pos <= i <= t.len(),
            forall|j: int| pos <= j < i ==> is_digit(#[trigger] t@[j]),
            !overflow ==> v == digits_value(t@.subrange(pos as int, i as int)),
            overflow ==> digits_value(t@.subrange(pos as int, i as int)) > u64::MAX,
        decreases t.len() - i,
    {
        let d: u64 = (t[i] as u32 - 48) as u64;
        let ghost old_value = digits_value(t@.subrange(pos as int, i as int));
        proof {
            let s = t@.subrange(pos as int, i + 1);
            assert(s.drop_last() =~= t@.subrange(pos as int, i as int));
            assert(s.last() == t@[i as int]);
            assert(digits_value(s) == old_value * 10 + d);
        }
        if !overflow {
            if v > (u64::MAX - d) / 10 {
                assert(v * 10 + d > u64::MAX) by (nonlinear_arith)
                    requires
                        v > (u64::MAX - d) / 10,
                        d < 10,
                ;
                overflow = true;
            } else {
                assert(v * 10 + d <= u64::MAX) by (nonlinear_arith)
                    requires
                        v <= (u64::MAX - d) / 10,
                        d < 10,
                ;
                v = v * 10 + d;
            }
        }
        i = i + 1;
    }
    let ghost run = t@.subrange(pos as int, i as int);
    proof {
        assert forall|n: nat, end: int| natural_at(t@, pos as int, n, end) implies end == i
            && run == decimal(n) && digits_value(run) == n by {
            lemma_decimal_shape(n);
            let dn = decimal(n);
            assert(forall|j: int| 0 <= j < dn.len() ==> t@[pos + j] == dn[j]) by {
                assert forall|j: int| 0 <= j < dn.len() implies t@[pos + j] == dn[j] by {
                    assert(t@.subrange(pos as int, pos + dn.len())[j] == t@[pos + j]);
                }
            }
            if end < i {
                assert(is_digit(t@[end]));
            } else if end > i {
                assert(t@[i as int] == dn[i - pos]);
                assert(is_digit(t@[i as int]));
            }
            assert(run =~= t@.subrange(pos as int, pos + dn.len()));
        }
    }
    if i == pos || overflow || (t[pos] == '0' && i > pos + 1) {
        proof {
            assert forall|n: nat, end: int| natural_at(t@, pos as int, n, end) implies n
                > u64::MAX by {
                lemma_decimal_shape(n);
                if i == pos {
                    assert(run.len() == 0);
                } else if t@[pos as int] == '0' && i > pos + 1 {
                    assert(run[0] == t@[pos as int]);
                    assert(decimal(n)[0] == '0');
                }
            }
        }
        return None;
    }
    proof {
        assert(forall|j: int| 0 <= j < run.len() ==> run[j] == t@[pos + j]);
        assert(run[0] == t@[pos as int]);
        lemma_decimal_canonical(run);
    }
    Some((v, i))
}

/// Reads the canonical text of an `i64` at `pos`.
pub fn parse_integer(t: &Vec<char>, pos: usize) -> (r: Option<(i64, usize)>)
    ensures
        r matches Some((n, end)) ==> integer_at(t@, pos as int, n as int, end as int),
        forall|n: int, end: int|
            #![trigger integer_at(t@, pos as int, n, end)]
            integer_at(t@, pos as int, n, end) && i64::MIN <= n <= i64::MAX ==> r == Some(
                (n as i64, end as usize),
            ),
{
    if pos >= t.len() {
        return None;
    }
    if t[pos] == '-' {
        proof {
            assert forall|n: int, end: int| integer_at(t@, pos as int, n, end) implies n < 0
                && natural_at(t@, pos + 1, (-n) as nat, end) by {
                if n >= 0 {
                    lemma_decimal_shape(n as nat);
                    assert(t@.subrange(pos as int, pos + integer_text(n).len())[0] == t@[pos as int]);
                } else {
                    lemma_starts_at_split(t@, pos as int, seq!['-'], decimal((-n) as nat));
                }
            }
        }
        match parse_natural(t, pos + 1) {
            Some((m, end)) => {
                if m == 0 || m > 9223372036854775808 {
                    return None;
                }
                let n: i64 = (-(m as i128)) as i64;
                proof {
                    assert(t@.subrange(pos as int, pos + 1) =~= seq!['-']);
                    lemma_starts_at_join(t@, pos as int, seq!['-'], decimal(m as nat));
                    assert(integer_text(n as int) == seq!['-'] + decimal(m as nat));
                }
                Some((n, end))
            },
            None => None,
        }
    } else {
        proof {
            assert forall|n: int, end: int| integer_at(t@, pos as int, n, end) implies n >= 0
                && natural_at(t@, pos as int, n as nat, end) by {
                if n < 0 {
                    assert(t@.subrange(pos as int, pos + integer_text(n).len())[0] == t@[pos as int]);
                }
            }
        }
        match parse_natural(t, pos) {
            Some((m, end)) => {
                if m > 9223372036854775807 {
                    return None;
                }
                Some((m as i64, end))
            },
            None => None,
        }
    }
}

fn hex_value(c: char) -> (r: Option<u32>)
    ensures
        r matches Some(d) ==> d < 16 && hex_char(d as nat) == c,
        forall|d: nat| d < 16 && hex_char(d) == c ==> r == Some(d as u32),
{
    if '0' <= c && c <= '9' {
        Some(c as u32 - 48)
    } else if 'a' <= c && c <= 'f' {
        Some(c as u32 - 87)
    } else {
        None
    }
}

/// The character that a two-character escape with letter `e` stands for.
pub open spec fn short_unescape(e: char) -> Option<char> {
    if e == '"' || e == '\\' {
        Some(e)
    } else if e == 'b' {
        Some(8u8 as char)
    } else if e == 't' {
        Some(9u8 as char)
    } else if e == 'n' {
        Some(10u8 as char)
    } else if e == 'f' {
        Some(12u8 as char)
    } else if e == 'r' {
        Some(13u8 as char)
    } else {
        None
    }
}

proof fn lemma_short_unescape(x: char, e: char)
    ensures
        short_escape(x) == Some(e) <==> short_unescape(e) == Some(x),
{
    if short_escape(x) == Some(e) {
        if x as u32 == 8 {
        } else if x as u32 == 9 {
        } else if x as u32 == 10 {
        } else if x as u32 == 12 {
        } else if x as u32 == 13 {
        }
    }
}

fn unescape_letter(e: char) -> (r: Option<char>)
    ensures
        r == short_unescape(e),
{
    if e == '"' || e == '\\' {
        Some(e)
    } else if e == 'b' {
        Some(8u8 as char)
    } else if e == 't' {
        Some(9u8 as char)
    } else if e == 'n' {
        Some(10u8 as char)
    } else if e == 'f' {
        Some(12u8 as char)
    } else if e == 'r' {
        Some(13u8 as char)
    } else {
        None
    }
}

proof fn lemma_char_of_code(x: char, v: u32)
    requires
        x as u32 == v,
        v < 32,
    ensures
        ((v as u8) as char) == x,
{
}

/// Reads a six-character escape `\u00XY` at `i`.
fn parse_control_escape(t: &Vec<char>, i: usize) -> (r: Option<char>)
    requires
        i + 6 <= t.len(),
    ensures
        r matches Some(c) ==> t@.subrange(i as int, i + 6) == escape_char(c),
        forall|c: char|
            #![trigger escape_char(c)]
            t@.subrange(i as int, i + 6) == escape_char(c) ==> r == Some(c),
{
    let ghost s = t@.subrange(i as int, i + 6);
    proof {
        assert forall|x: char| #![trigger escape_char(x)] s == escape_char(x) implies short_escape(x)
            is None && (x as u32) < 32 && s[4] == hex_char((x as u32 / 16) as nat) && s[5]
            == hex_char((x as u32 % 16) as nat) by {
            lemma_escape_char_shape(x);
        }
    }
    if t[i] != '\\' || t[i + 1] != 'u' || t[i + 2] != '0' || t[i + 3] != '0' {
        return None;
    }
    let hi = hex_value(t[i + 4]);
    let lo = hex_value(t[i + 5]);
    match (hi, lo) {
        (Some(h), Some(l)) => {
            let v = h * 16 + l;
            if v >= 32 || v == 8 || v == 9 || v == 10 || v == 12 || v == 13 {
                proof {
                    assert forall|x: char| #![trigger escape_char(x)] s == escape_char(x) implies false by {
                        let xv = x as u32;
                        lemma_hex_char((xv / 16) as nat);
                        lemma_hex_char((xv % 16) as nat);
                        assert(h == xv / 16 && l == xv % 16);
                    }
                }
                None
            } else {
                let c = (v as u8) as char;
                proof {
                    lemma_hex_char(h as nat);
                    lemma_hex_char(l as nat);
                    assert(v / 16 == h && v % 16 == l);
                    assert(s =~= escape_char(c));
                    assert forall|x: char| #![trigger escape_char(x)] s == escape_char(x) implies x == c by {
                        let xv = x as u32;
                        lemma_hex_char((xv / 16) as nat);
                        lemma_hex_char((xv % 16) as nat);
                        assert(h == xv / 16 && l == xv % 16);
                        assert((xv / 16) * 16 + xv % 16 == xv);
                        assert(xv == v);
                        lemma_char_of_code(x, v);
                    }
                }
                Some(c)
            }
        },
        _ => {
            proof {
                assert forall|x: char| #![trigger escape_char(x)] s == escape_char(x) implies false by {
                    let xv = x as u32;
                    lemma_hex_char((xv / 16) as nat);
                    lemma_hex_char((xv % 16) as nat);
                }
            }
            None
        },
    }
}

/// Reads one character of a JSON string body at `i`: the character and the
/// length of its text.
fn parse_escaped_char(t: &Vec<char>, i: usize) -> (r: Option<(char, usize)>)
    ensures
        r matches Some((c, k)) ==> starts_at(t@, i as int, escape_char(c)) && k == escape_char(
            c,
        ).len(),
        forall|c: char|
            #![trigger escape_char(c)]
            starts_at(t@, i as int, escape_char(c)) ==> r == Some(
                (c, escape_char(c).len() as usize),
            ),
{
    proof {
        assert forall|x: char| #![trigger escape_char(x)] starts_at(t@, i as int, escape_char(x)) implies (
        forall|j: int| 0 <= j < escape_char(x).len() ==> t@[i + j] == escape_char(x)[j]) by {
            assert forall|j: int| 0 <= j < escape_char(x).len() implies t@[i + j] == escape_char(x)[j] by {
                assert(t@.subrange(i as int, i + escape_char(x).len())[j] == t@[i + j]);
            }
        }
    }
    if i >= t.len() {
        proof {
            assert forall|x: char| #![trigger escape_char(x)] starts_at(t@, i as int, escape_char(x)) implies false by {
                lemma_escape_char_shape(x);
            }
        }
        return None;
    }
    let c = t[i];
    if c == '\\' {
        if t.len() - i < 2 {
            proof {
                assert forall|x: char| #![trigger escape_char(x)] starts_at(t@, i as int, escape_char(x)) implies false by {
                    lemma_escape_char_shape(x);
                }
            }
            return None;
        }
        let e = t[i + 1];
        match unescape_letter(e) {
            Some(x) => {
                proof {
                    lemma_short_unescape(x, e);
                    assert(t@.subrange(i as int, i + 2) =~= escape_char(x));
                    assert forall|y: char| #![trigger escape_char(y)] starts_at(t@, i as int, escape_char(y)) implies y == x by {
                        lemma_escape_char_shape(y);
                        lemma_short_unescape(y, e);
                        if short_escape(y) is None && (y as u32) < 32 {
                            assert(escape_char(y)[1] == 'u');
                        }
                    }
                }
                return Some((x, 2));
            },
            None => {},
        }
        if e == 'u' && t.len() - i > 5 {
            proof {
                assert forall|y: char| #![trigger escape_char(y)] starts_at(t@, i as int, escape_char(y)) implies t@.subrange(i as int, i + 6) == escape_char(y) by {
                    lemma_escape_char_shape(y);
                    lemma_short_unescape(y, e);
                }
            }
            match parse_control_escape(t, i) {
                Some(x) => {
                    proof {
                        lemma_escape_char_shape(x);
                        assert(escape_char(x).len() == 6);
                    }
                    return Some((x, 6));
                },
                None => {
                    return None;
                },
            }
        }
        proof {
            assert forall|y: char| #![trigger escape_char(y)] starts_at(t@, i as int, escape_char(y)) implies false by {
                lemma_escape_char_shape(y);
                lemma_short_unescape(y, e);
            }
        }
        return None;
    }
    if c == '"' || (c as u32) < 32 {
        proof {
            assert forall|y: char| #![trigger escape_char(y)] starts_at(t@, i as int, escape_char(y)) implies false by {
                lemma_escape_char_shape(y);
            }
        }
        return None;
    }
    proof {
        assert(t@.subrange(i as int, i + 1) =~= escape_char(c));
        assert forall|y: char| #![trigger escape_char(y)] starts_at(t@, i as int, escape_char(y)) implies y == c by {
            lemma_escape_char_shape(y);
        }
    }
    Some((c, 1))
}

/// Where the text at `pos` is the literal of `x`, reading its body so far
/// (`out`, a prefix of `x`) leaves the reader at the next character of `x`, or
/// at the closing quote once all of `x` is read.
proof fn lemma_quoted_reader(t: Seq<char>, pos: int, x: Seq<char>, out: Seq<char>, i: int)
    requires
        starts_at(t, pos + 1, escaped(x)),
        starts_at(t, pos + 1 + escaped(x).len(), seq!['"']),
        out.len() <= x.len(),
        out == x.take(out.len() as int),
        i == pos + 1 + escaped(out).len(),
    ensures
        i < t.len(),
        out.len() < x.len() ==> starts_at(t, i, escape_char(x[out.len() as int])) && t[i] != '"',
        out.len() == x.len() ==> out == x && t[i] == '"',
{
    let k = out.len() as int;
    if k < x.len() {
        lemma_escaped_at(x, k);
        lemma_escape_char_shape(x[k]);
        lemma_starts_at_split(t, pos + 1, escaped(out), escape_char(x[k]) + escaped(x.skip(k + 1)));
        lemma_starts_at_split(t, i, escape_char(x[k]), escaped(x.skip(k + 1)));
        assert(t.subrange(i, i + escape_char(x[k]).len())[0] == t[i]);
    } else {
        assert(x.take(k) =~= x);
        assert(t.subrange(i, i + 1)[0] == t[i]);
    }
}

/// Reads a JSON string literal at `pos`: its value and the position after it.
pub fn parse_quoted(t: &Vec<char>, pos: usize) -> (r: Option<(String, usize)>)
    ensures
        r matches Some((s, end)) ==> starts_at(t@, pos as int, quoted(s@)) && end == pos
            + quoted(s@).len(),
        forall|x: Seq<char>|
            #![trigger quoted(x)]
            starts_at(t@, pos as int, quoted(x)) ==> (r matches Some((s, end)) && s@ == x && end
                == pos + quoted(x).len()),
{
    if pos >= t.len() || t[pos] != '"' {
        proof {
            assert forall|x: Seq<char>| #![trigger quoted(x)] starts_at(t@, pos as int, quoted(x)) implies false by {
                assert(t@.subrange(pos as int, pos + quoted(x).len())[0] == t@[pos as int]);
            }
        }
        return None;
    }
    let ghost w: Option<Seq<char>> = if exists|x: Seq<char>| starts_at(t@, pos as int, quoted(x)) {
        Some(choose|x: Seq<char>| starts_at(t@, pos as int, quoted(x)))
    } else {
        None
    };
    proof {
        if w is Some {
            let x = w.unwrap();
            assert(quoted(x) =~= seq!['"'] + (escaped(x) + seq!['"']));
            lemma_starts_at_split(t@, pos as int, seq!['"'], escaped(x) + seq!['"']);
            lemma_starts_at_split(t@, pos + 1, escaped(x), seq!['"']);
        }
        assert(escaped(Seq::<char>::empty()) == Seq::<char>::empty());
        assert(t@.subrange(pos + 1, pos + 1) =~= Seq::<char>::empty());
    }
    let mut out = String::new();
    let mut i: usize = pos + 1;
    loop
        invariant
            pos + 1 <= i <= t.len(),
            starts_at(t@, pos + 1, escaped(out@)),
            i == pos + 1 + escaped(out@).len(),
            w matches Some(x) ==> out@.len() <= x.len() && out@ == x.take(out@.len() as int)
                && starts_at(t@, pos + 1, escaped(x)) && starts_at(
                t@,
                pos + 1 + escaped(x).len(),
                seq!['"'],
            ),
            w is None ==> forall|x: Seq<char>| !starts_at(t@, pos as int, #[trigger] quoted(x)),
        ensures
            i < t.len(),
            t@[i as int] == '"',
            w matches Some(x) ==> out@ == x,
        decreases t.len() - i,
    {
        assert(w is Some ==> i < t.len()) by {
            if w is Some {
                lemma_quoted_reader(t@, pos as int, w.unwrap(), out@, i as int);
            }
        }
        if i >= t.len() {
            return None;
        }
        if t[i] == '"' {
            assert(w matches Some(x) ==> out@ == x) by {
                if w is Some {
                    lemma_quoted_reader(t@, pos as int, w.unwrap(), out@, i as int);
                }
            }
            break;
        }
        assert(w matches Some(x) ==> out@.len() < x.len() && starts_at(
            t@,
            i as int,
            escape_char(x[out@.len() as int]),
        )) by {
            if w is Some {
                lemma_quoted_reader(t@, pos as int, w.unwrap(), out@, i as int);
            }
        }
        match parse_escaped_char(t, i) {
            Some((c, k)) => {
                proof {
                    lemma_escaped_push(out@, c);
                    lemma_starts_at_join(t@, pos + 1, escaped(out@), escape_char(c));
                    if w is Some {
                        let x = w.unwrap();
                        let n = out@.len() as int;
                        assert(x.take(n + 1) =~= x.take(n).push(x[n]));
                    }
                }
                push_char(&mut out, c);
                i = i + k;
            },
            None => {
                return None;
            },
        }
    }
    proof {
        assert(t@.subrange(i as int, i + 1) =~= seq!['"']);
        assert(t@.subrange(pos as int, pos + 1) =~= seq!['"']);
        lemma_starts_at_join(t@, pos as int, seq!['"'], escaped(out@));
        lemma_starts_at_join(t@, pos as int, seq!['"'] + escaped(out@), seq!['"']);
        assert(quoted(out@) == seq!['"'] + escaped(out@) + seq!['"']);
        assert forall|x: Seq<char>| #![trigger quoted(x)] starts_at(t@, pos as int, quoted(x)) implies out@ == x by {
            lemma_quoted_at_unique(t@, pos as int, x, out@);
        }
    }
    Some((out, i + 1))
}

/// Reads a JSON boolean at `pos`.
pub fn parse_bool(t: &Vec<char>, pos: usize) -> (r: Option<(bool, usize)>)
    ensures
        r matches Some((b, end)) ==> starts_at(t@, pos as int, bool_text(b)) && end == pos
            + bool_text(b).len(),
        forall|b: bool|
            #![trigger bool_text(b)]
            starts_at(t@, pos as int, bool_text(b)) ==> r == Some(
                (b, (pos + bool_text(b).len()) as usize),
            ),
{
    proof {
        reveal_strlit("true");
        reveal_strlit("false");
        assert(!(starts_at(t@, pos as int, "true"@) && starts_at(t@, pos as int, "false"@))) by {
            if starts_at(t@, pos as int, "true"@) && starts_at(t@, pos as int, "false"@) {
                assert(t@.subrange(pos as int, pos + 4)[0] == t@[pos as int]);
                assert(t@.subrange(pos as int, pos + 5)[0] == t@[pos as int]);
            }
        }
        assert(bool_text(true) == "true"@);
        assert(bool_text(false) == "false"@);
    }
    if let Some(end) = expect(t, pos, "true") {
        assert(starts_at(t@, pos as int, bool_text(true)));
        return Some((true, end));
    }
    if let Some(end) = expect(t, pos, "false") {
        assert(starts_at(t@, pos as int, bool_text(false)));
        return Some((false, end));
    }
    None
}

} // verus!

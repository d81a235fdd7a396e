use vstd::prelude::*;
use vstd::string::*;

verus! {

/// Upper-case hexadecimal digit for a value below 16.
pub open spec fn hex_digit(n: u32) -> char {
    if n < 10 {
        (n + 48) as char
    } else {
        (n + 55) as char
    }
}

/// How one character is written inside a JSON string literal: the quote, the
/// backslash and the control characters are escaped, everything else stands as it is.
pub open spec fn escape_char(c: char) -> Seq<char> {
    if c == '"' {
        seq!['\\', '"']
    } else if c == '\\' {
        seq!['\\', '\\']
    } else if c == '\n' {
        seq!['\\', 'n']
    } else if c == '\r' {
        seq!['\\', 'r']
    } else if c == '\t' {
        seq!['\\', 't']
    } else if c == '\x08' {
        seq!['\\', 'b']
    } else if c == '\x0c' {
        seq!['\\', 'f']
    } else if (c as u32) < 0x20 {
        seq!['\\', 'u', '0', '0', hex_digit((c as u32) / 16), hex_digit((c as u32) % 16)]
    } else {
        seq![c]
    }
}

/// The escaped body of a JSON string literal.
pub open spec fn escape(s: Seq<char>) -> Seq<char>
    decreases s.len(),
{
    if s.len() == 0 {
        Seq::empty()
    } else {
        escape_char(s[0]) + escape(s.drop_first())
    }
}

/// A complete JSON string literal, quotes included.
pub open spec fn json_string(s: Seq<char>) -> Seq<char> {
    seq!['"'] + escape(s) + seq!['"']
}

proof fn lemma_escape_char_unique(c1: char, c2: char, x1: Seq<char>, x2: Seq<char>)
    requires
        escape_char(c1) + x1 == escape_char(c2) + x2,
    ensures
        c1 == c2,
        x1 == x2,
{
    let e1 = escape_char(c1);
    let e2 = escape_char(c2);
    let w = e1 + x1;
    assert(w[0] == e1[0] && w[0] == e2[0]);
    if e1[0] == '\\' {
        assert(w[1] == e1[1] && w[1] == e2[1]);
        if e1[1] == 'u' {
            assert(w[4] == e1[4] && w[4] == e2[4]);
            assert(w[5] == e1[5] && w[5] == e2[5]);
            assert((c1 as u32) == (c1 as u32) / 16 * 16 + (c1 as u32) % 16);
            assert((c2 as u32) == (c2 as u32) / 16 * 16 + (c2 as u32) % 16);
        }
    }
    assert(e1.len() == e2.len());
    assert(x1 =~= w.skip(e1.len() as int));
    assert(x2 =~= w.skip(e2.len() as int));
}

proof fn lemma_escape_concat(a: Seq<char>, b: Seq<char>)
    ensures
        escape(a + b) == escape(a) + escape(b),
    decreases a.len(),
{
    if a.len() == 0 {
        assert(a + b =~= b);
        assert(escape(a) + escape(b) =~= escape(b));
    } else {
        lemma_escape_concat(a.drop_first(), b);
        assert((a + b).drop_first() =~= a.drop_first() + b);
        assert((a + b)[0] == a[0]);
        assert(escape(a + b) =~= escape(a) + escape(b));
    }
}

/// If the escape of `a` runs into the escape of `b` followed by a closing quote,
/// then `a` is a prefix of `b` and the rest is the escape of what is left of `b`.
proof fn lemma_escape_prefix(a: Seq<char>, b: Seq<char>, x: Seq<char>, y: Seq<char>)
    requires
        escape(a) + x == escape(b) + seq!['"'] + y,
    ensures
        a.len() <= b.len(),
        a == b.take(a.len() as int),
        x == escape(b.skip(a.len() as int)) + seq!['"'] + y,
    decreases a.len(),
{
    if a.len() == 0 {
        assert(escape(a) + x =~= x);
        assert(b.skip(0) =~= b);
        assert(a =~= b.take(0));
    } else {
        let e = escape_char(a[0]);
        assert(escape(a) + x =~= e + (escape(a.drop_first()) + x));
        if b.len() == 0 {
            assert(escape(b) + seq!['"'] + y =~= seq!['"'] + y);
            assert((e + (escape(a.drop_first()) + x))[0] == e[0]);
            assert(false);
        } else {
            assert(escape(b) + seq!['"'] + y =~= escape_char(b[0]) + (escape(b.drop_first())
                + seq!['"'] + y));
            lemma_escape_char_unique(a[0], b[0], escape(a.drop_first()) + x,
                escape(b.drop_first()) + seq!['"'] + y);
            lemma_escape_prefix(a.drop_first(), b.drop_first(), x, y);
            assert(b.drop_first().skip(a.len() - 1) =~= b.skip(a.len() as int));
            assert forall|k: int| 0 <= k < a.len() implies a[k] == b.take(a.len() as int)[k] by {
                if k > 0 {
                    assert(a[k] == a.drop_first()[k - 1]);
                    assert(b.drop_first().take(a.len() - 1)[k - 1] == b[k]);
                }
            }
            assert(a =~= b.take(a.len() as int));
        }
    }
}

/// A JSON string literal ends where its closing quote stands: no literal is a
/// proper prefix of another, so what follows it is determined.
pub proof fn lemma_json_string_prefix_free(a: Seq<char>, b: Seq<char>, x: Seq<char>, y: Seq<char>)
    requires
        json_string(a) + x == json_string(b) + y,
    ensures
        a == b,
        x == y,
{
    let w = json_string(a) + x;
    assert(w =~= seq!['"'] + (escape(a) + (seq!['"'] + x)));
    assert(w =~= seq!['"'] + (escape(b) + (seq!['"'] + y)));
    assert(escape(a) + (seq!['"'] + x) =~= w.drop_first());
    assert(escape(b) + seq!['"'] + y =~= w.drop_first());
    lemma_escape_prefix(a, b, seq!['"'] + x, y);
    if a.len() < b.len() {
        let r = b.skip(a.len() as int);
        assert(escape(r) =~= escape_char(r[0]) + escape(r.drop_first()));
        let q = escape(b.skip(a.len() as int)) + seq!['"'] + y;
        assert(q[0] == escape_char(r[0])[0]);
        assert((seq!['"'] + x)[0] == '"');
        assert(false);
    }
    assert(a =~= b);
    assert(seq!['"'] + x =~= seq!['"'] + y);
    assert(x =~= (seq!['"'] + x).drop_first());
    assert(y =~= (seq!['"'] + y).drop_first());
}


pub open spec fn is_digit(c: char) -> bool {
    '0' <= c && c <= '9'
}

pub open spec fn digit_char(d: nat) -> char {
    ((d + 48) as u32) as char
}

pub open spec fn digit_value(c: char) -> nat {
    ((c as u32) - 48) as nat
}

/// The shortest decimal numeral of `n`: no sign and no leading zero.
pub open spec fn decimal(n: nat) -> Seq<char>
    decreases n,
{
    if n < 10 {
        seq![digit_char(n)]
    } else {
        decimal(n / 10).push(digit_char(n % 10))
    }
}

/// The value of a string of decimal digits, read most significant first.
pub open spec fn digits_value(s: Seq<char>) -> nat
    decreases s.len(),
{
    if s.len() == 0 {
        0
    } else {
        digits_value(s.drop_last()) * 10 + digit_value(s.last())
    }
}

pub open spec fn all_digits(s: Seq<char>) -> bool {
    forall|k: int| 0 <= k < s.len() ==> is_digit(#[trigger] s[k])
}

proof fn lemma_decimal_digits(n: nat)
    ensures
        all_digits(decimal(n)),
        decimal(n).len() >= 1,
        decimal(n).len() > 1 ==> decimal(n)[0] != '0',
        digits_value(decimal(n)) == n,
        n >= 10 ==> decimal(n).len() >= 2,
    decreases n,
{
    assert(((('0' as u32) + 0) as char) == '0');
    if n < 10 {
        assert((digit_char(n) as u32) == n + 48);
        assert(decimal(n).drop_last() =~= Seq::<char>::empty());
        assert(digits_value(Seq::<char>::empty()) == 0);
    }
    if n >= 10 {
        lemma_decimal_digits(n / 10);
        let d = decimal(n);
        assert(d.drop_last() =~= decimal(n / 10));
        assert(d[0] == decimal(n / 10)[0]);
        if decimal(n / 10).len() == 1 {
            assert(n / 10 < 10);
            assert((digit_char(n / 10) as u32) == n / 10 + 48);
        }
        assert((digit_char(n % 10) as u32) == n % 10 + 48);
        assert(n == (n / 10) * 10 + n % 10);
    }
}

proof fn lemma_digits_value_prefix(s: Seq<char>, k: int)
    requires
        all_digits(s),
        0 <= k <= s.len(),
    ensures
        digits_value(s.take(k)) <= digits_value(s),
    decreases s.len(),
{
    if k == s.len() {
        assert(s.take(k) =~= s);
    } else {
        let t = s.drop_last();
        assert(all_digits(t)) by {
            assert forall|j: int| 0 <= j < t.len() implies is_digit(#[trigger] t[j]) by {
                assert(t[j] == s[j]);
            }
        }
        lemma_digits_value_prefix(t, k);
        assert(t.take(k) =~= s.take(k));
    }
}

proof fn lemma_digits_canonical(s: Seq<char>)
    requires
        all_digits(s),
        s.len() >= 1,
        s.len() == 1 || s[0] != '0',
    ensures
        decimal(digits_value(s)) == s,
    decreases s.len(),
{
    let v = digits_value(s);
    assert(is_digit(s.last()));
    if s.len() == 1 {
        assert(s.drop_last() =~= Seq::<char>::empty());
        assert(s.last() == s[0]);
        assert(digits_value(Seq::<char>::empty()) == 0);
        assert(v == digit_value(s[0]));
        assert((digit_char(v) as u32) == v + 48);
        assert(decimal(v) =~= s);
    } else {
        let t = s.drop_last();
        assert(all_digits(t)) by {
            assert forall|j: int| 0 <= j < t.len() implies is_digit(#[trigger] t[j]) by {
                assert(t[j] == s[j]);
            }
        }
        assert(t[0] == s[0]);
        lemma_digits_canonical(t);
        lemma_digits_value_prefix(t, 1);
        assert(t.take(1).drop_last() =~= Seq::<char>::empty());
        assert(t.take(1).last() == s[0]);
        assert(is_digit(s[0]));
        let w = digits_value(t);
        assert(w >= 1);
        let d = digit_value(s.last());
        assert(d < 10);
        assert(v == w * 10 + d);
        assert(v / 10 == w && v % 10 == d) by (nonlinear_arith)
            requires v == w * 10 + d, d < 10;
        assert(decimal(v) =~= s);
    }
}


/// Relies on `String::push`: appends one character.
#[verifier::external_body]
pub(crate) fn push_char(out: &mut String, c: char)
    ensures
        final(out)@ == old(out)@.push(c),
{
    out.push(c)
}

/// The characters of `s`, in order.
pub fn chars_of(s: &str) -> (r: Vec<char>)
    ensures
        r@ == s@,
{
    let n = s.unicode_len();
    let mut r: Vec<char> = Vec::new();
    let mut i: usize = 0;
    while i < n
        invariant
            n == s@.len(),
            i <= n,
            r@ == s@.take(i as int),
        decreases n - i,
    {
        r.push(s.get_char(i));
        i = i + 1;
        assert(r@ =~= s@.take(i as int));
    }
    assert(r@ =~= s@);
    r
}

fn hex_char(n: u32) -> (r: char)
    requires
        n < 16,
    ensures
        r == hex_digit(n),
{
    if n < 10 {
        ((n + 48) as u8) as char
    } else {
        ((n + 55) as u8) as char
    }
}

fn push_escaped_char(out: &mut String, c: char)
    ensures
        final(out)@ == old(out)@ + escape_char(c),
{
    let ghost start = out@;
    if c == '"' || c == '\\' {
        push_char(out, '\\');
        push_char(out, c);
    } else if c == '\n' {
        push_char(out, '\\');
        push_char(out, 'n');
    } else if c == '\r' {
        push_char(out, '\\');
        push_char(out, 'r');
    } else if c == '\t' {
        push_char(out, '\\');
        push_char(out, 't');
    } else if c == '\x08' {
        push_char(out, '\\');
        push_char(out, 'b');
    } else if c == '\x0c' {
        push_char(out, '\\');
        push_char(out, 'f');
    } else if (c as u32) < 0x20 {
        push_char(out, '\\');
        push_char(out, 'u');
        push_char(out, '0');
        push_char(out, '0');
        push_char(out, hex_char((c as u32) / 16));
        push_char(out, hex_char((c as u32) % 16));
    } else {
        push_char(out, c);
    }
    assert(out@ =~= start + escape_char(c));
}

/// Appends `s` as a JSON string literal.
pub fn write_json_string(out: &mut String, s: &str)
    ensures
        final(out)@ == old(out)@ + json_string(s@),
{
    let ghost start = out@;
    push_char(out, '"');
    let n = s.unicode_len();
    let mut i: usize = 0;
    while i < n
        invariant
            n == s@.len(),
            i <= n,
            out@ == start + seq!['"'] + escape(s@.take(i as int)),
        decreases n - i,
    {
        let c = s.get_char(i);
        push_escaped_char(out, c);
        proof {
            lemma_escape_concat(s@.take(i as int), seq![c]);
            assert(s@.take(i + 1) =~= s@.take(i as int) + seq![c]);
            assert(escape(seq![c]) =~= escape_char(c) + escape(seq![c].drop_first()));
            assert(escape(seq![c]) =~= escape_char(c));
        }
        i = i + 1;
    }
    push_char(out, '"');
    assert(s@.take(n as int) =~= s@);
    assert(out@ =~= start + json_string(s@));
}

/// Appends the decimal numeral of `n`.
pub fn write_decimal(out: &mut String, n: u32)
    ensures
        final(out)@ == old(out)@ + decimal(n as nat),
    decreases n,
{
    let ghost start = out@;
    if n >= 10 {
        write_decimal(out, n / 10);
    }
    let d = n % 10;
    push_char(out, ((d + 48) as u8) as char);
    assert(out@ =~= start + decimal(n as nat));
}

/// Whether `c` stands at position `i`.
pub fn char_at(p: &Vec<char>, i: usize, c: char) -> (r: bool)
    ensures
        r == (i < p@.len() && p@[i as int] == c),
{
    i < p.len() && p[i] == c
}

fn is_digit_char(c: char) -> (r: bool)
    ensures
        r == is_digit(c),
{
    '0' <= c && c <= '9'
}


fn hex_value(c: char) -> (r: Option<u32>)
    ensures
        match r {
            Some(v) => v < 16 && hex_digit(v) == c,
            None => forall|v: u32| v < 16 ==> hex_digit(v) != c,
        },
{
    if '0' <= c && c <= '9' {
        let v = (c as u32) - 48;
        assert(((v + 48) as char) == c);
        Some(v)
    } else if 'A' <= c && c <= 'F' {
        let v = (c as u32) - 55;
        assert(((v + 55) as char) == c);
        Some(v)
    } else {
        assert forall|v: u32| v < 16 implies hex_digit(v) != c by {
            if v < 10 {
                assert(((v + 48) as char) as u32 == v + 48);
            } else {
                assert(((v + 55) as char) as u32 == v + 55);
            }
        }
        None
    }
}

proof fn lemma_char_code_injective(x: char, y: char)
    requires
        x as u32 == y as u32,
    ensures
        x == y,
{
}

proof fn lemma_hex_digit_injective(a: u32, b: u32)
    requires
        a < 16,
        b < 16,
        hex_digit(a) == hex_digit(b),
    ensures
        a == b,
{
    assert(((a + 48) as char) as u32 == a + 48);
    assert(((a + 55) as char) as u32 == a + 55);
    assert(((b + 48) as char) as u32 == b + 48);
    assert(((b + 55) as char) as u32 == b + 55);
}

/// Reads one written character of a string literal body at `k`.
fn decode_escape(p: &Vec<char>, k: usize) -> (r: Option<(char, usize)>)
    requires
        k < p@.len(),
        p@[k as int] != '"',
    ensures
        match r {
            Some((c, j)) => k < j <= p@.len() && p@.subrange(k as int, j as int) == escape_char(c),
            None => forall|c: char| !(#[trigger] escape_char(c)).is_prefix_of(p@.skip(k as int)),
        },
{
    let n = p.len();
    let c = p[k];
    if c != '\\' {
        if (c as u32) < 0x20 {
            assert forall|x: char| !(#[trigger] escape_char(x)).is_prefix_of(p@.skip(k as int)) by {
                if escape_char(x).is_prefix_of(p@.skip(k as int)) {
                    assert(escape_char(x)[0] == p@.skip(k as int)[0]);
                }
            }
            return None;
        }
        assert(p@.subrange(k as int, k + 1) =~= escape_char(c));
        return Some((c, k + 1));
    }
    if n - k <= 1 {
        assert forall|x: char| !(#[trigger] escape_char(x)).is_prefix_of(p@.skip(k as int)) by {
            if escape_char(x).is_prefix_of(p@.skip(k as int)) {
                assert(escape_char(x)[0] == p@.skip(k as int)[0]);
            }
        }
        return None;
    }
    let d = p[k + 1];
    let e: char;
    if d == '"' {
        e = '"';
    } else if d == '\\' {
        e = '\\';
    } else if d == 'n' {
        e = '\n';
    } else if d == 'r' {
        e = '\r';
    } else if d == 't' {
        e = '\t';
    } else if d == 'b' {
        e = '\x08';
    } else if d == 'f' {
        e = '\x0c';
    } else if d == 'u' {
        return decode_unicode_escape(p, k);
    } else {
        assert forall|x: char| !(#[trigger] escape_char(x)).is_prefix_of(p@.skip(k as int)) by {
            if escape_char(x).is_prefix_of(p@.skip(k as int)) {
                assert(escape_char(x)[0] == p@.skip(k as int)[0]);
                assert(escape_char(x)[1] == p@.skip(k as int)[1]);
            }
        }
        return None;
    }
    assert(p@.subrange(k as int, k + 2) =~= escape_char(e));
    Some((e, k + 2))
}

fn decode_unicode_escape(p: &Vec<char>, k: usize) -> (r: Option<(char, usize)>)
    requires
        k + 1 < p@.len(),
        p@[k as int] == '\\',
        p@[k + 1] == 'u',
    ensures
        match r {
            Some((c, j)) => k < j <= p@.len() && p@.subrange(k as int, j as int) == escape_char(c),
            None => forall|c: char| !(#[trigger] escape_char(c)).is_prefix_of(p@.skip(k as int)),
        },
{
    let ghost q = p@.skip(k as int);
    let n = p.len();
    if n - k <= 5 || p[k + 2] != '0' || p[k + 3] != '0' {
        assert forall|x: char| !(#[trigger] escape_char(x)).is_prefix_of(q) by {
            if escape_char(x).is_prefix_of(q) {
                assert(escape_char(x)[0] == q[0]);
                assert(escape_char(x)[1] == q[1]);
                assert(escape_char(x)[2] == q[2]);
                assert(escape_char(x)[3] == q[3]);
            }
        }
        return None;
    }
    let h = p[k + 4];
    let hv: u32;
    if h == '0' {
        hv = 0;
    } else if h == '1' {
        hv = 1;
    } else {
        assert forall|x: char| !(#[trigger] escape_char(x)).is_prefix_of(q) by {
            if escape_char(x).is_prefix_of(q) {
                assert(escape_char(x)[0] == q[0]);
                assert(escape_char(x)[1] == q[1]);
                assert(escape_char(x)[4] == q[4]);
                assert(((0u32 + 48) as char) as u32 == 48);
                assert(((1u32 + 48) as char) as u32 == 49);
            }
        }
        return None;
    }
    let lv = match hex_value(p[k + 5]) {
        Some(v) => v,
        None => {
            assert forall|x: char| !(#[trigger] escape_char(x)).is_prefix_of(q) by {
                if escape_char(x).is_prefix_of(q) {
                    assert(escape_char(x)[0] == q[0]);
                    assert(escape_char(x)[1] == q[1]);
                    assert(escape_char(x)[5] == q[5]);
                }
            }
            return None;
        },
    };
    assert(hex_digit(hv) == h) by {
        assert(((0u32 + 48) as char) as u32 == 48);
        assert(((1u32 + 48) as char) as u32 == 49);
    }
    let code = hv * 16 + lv;
    if code == 8 || code == 9 || code == 10 || code == 12 || code == 13 {
        assert forall|x: char| !(#[trigger] escape_char(x)).is_prefix_of(q) by {
            if escape_char(x).is_prefix_of(q) {
                assert(escape_char(x)[0] == q[0]);
                assert(escape_char(x)[1] == q[1]);
                assert(escape_char(x)[4] == q[4]);
                assert(escape_char(x)[5] == q[5]);
                let xv = x as u32;
                assert(xv < 0x20);
                lemma_hex_digit_injective(xv / 16, hv);
                lemma_hex_digit_injective(xv % 16, lv);
                assert(xv == xv / 16 * 16 + xv % 16);
                assert(xv == code);
                if xv == 8 {
                    lemma_char_code_injective(x, '\x08');
                } else if xv == 9 {
                    lemma_char_code_injective(x, '\t');
                } else if xv == 10 {
                    lemma_char_code_injective(x, '\n');
                } else if xv == 12 {
                    lemma_char_code_injective(x, '\x0c');
                } else {
                    lemma_char_code_injective(x, '\r');
                }
                assert(x == '\x08' || x == '\t' || x == '\n' || x == '\x0c' || x == '\r');
            }
        }
        return None;
    }
    let c = (code as u8) as char;
    assert(c as u32 == code);
    assert(p@.subrange(k as int, k + 6) =~= escape_char(c));
    Some((c, k + 6))
}

/// Reads a JSON string literal at `i`.
pub fn parse_string(p: &Vec<char>, i: usize) -> (r: Option<(String, usize)>)
    requires
        i <= p@.len(),
    ensures
        match r {
            Some((s, j)) => i < j <= p@.len() && p@.subrange(i as int, j as int) == json_string(s@),
            None => forall|t: Seq<char>| !(#[trigger] json_string(t)).is_prefix_of(p@.skip(i as int)),
        },
{
    if i >= p.len() || p[i] != '"' {
        assert forall|t: Seq<char>| !(#[trigger] json_string(t)).is_prefix_of(p@.skip(i as int)) by {
            if json_string(t).is_prefix_of(p@.skip(i as int)) {
                assert(json_string(t).len() >= 2);
                if i < p@.len() {
                    assert(json_string(t)[0] == p@.skip(i as int)[0]);
                }
            }
        }
        return None;
    }
    let mut out = String::new();
    let mut k: usize = i + 1;
    while k < p.len() && p[k] != '"'
        invariant
            i + 1 <= k <= p@.len(),
            p@[i as int] == '"',
            p@.subrange(i + 1, k as int) == escape(out@),
        decreases p@.len() - k,
    {
        match decode_escape(p, k) {
            Some((c, k2)) => {
                let ghost before = out@;
                push_char(&mut out, c);
                proof {
                    lemma_escape_concat(before, seq![c]);
                    assert(escape(seq![c]) =~= escape_char(c) + escape(seq![c].drop_first()));
                    assert(p@.subrange(i + 1, k2 as int) =~= p@.subrange(i + 1, k as int)
                        + p@.subrange(k as int, k2 as int));
                    assert(out@ =~= before + seq![c]);
                }
                k = k2;
            },
            None => {
                proof {
                    assert forall|t: Seq<char>| !(#[trigger] json_string(t)).is_prefix_of(p@.skip(i as int)) by {
                        if json_string(t).is_prefix_of(p@.skip(i as int)) {
                            lemma_no_escape_here(p@, i as int, k as int, out@, t);
                        }
                    }
                }
                return None;
            },
        }
    }
    if k >= p.len() {
        proof {
            assert forall|t: Seq<char>| !(#[trigger] json_string(t)).is_prefix_of(p@.skip(i as int)) by {
                if json_string(t).is_prefix_of(p@.skip(i as int)) {
                    lemma_string_runs_on(p@, i as int, k as int, out@, t);
                }
            }
        }
        return None;
    }
    assert(p@.subrange(i as int, k + 1) =~= json_string(out@));
    Some((out, k + 1))
}

/// Where the body read so far runs into a literal of `t`, the rest of `t` follows it.
proof fn lemma_literal_rest(p: Seq<char>, i: int, k: int, a: Seq<char>, t: Seq<char>)
    requires
        0 <= i < k <= p.len(),
        p.subrange(i + 1, k) == escape(a),
        json_string(t).is_prefix_of(p.skip(i)),
    ensures
        a.len() <= t.len(),
        escape(t.skip(a.len() as int)).len() + 1 <= p.skip(k).len(),
        p.skip(k).take(escape(t.skip(a.len() as int)).len() + 1int) == escape(t.skip(a.len() as int))
            + seq!['"'],
{
    let js = json_string(t);
    let y = p.skip(i + 1 + escape(t).len() + 1);
    assert(p.skip(i) =~= js + p.skip(i + js.len()));
    assert(js =~= seq!['"'] + (escape(t) + seq!['"']));
    assert(p.skip(i + 1) =~= p.skip(i).drop_first());
    assert(p.skip(i + 1) =~= escape(t) + seq!['"'] + y);
    assert(p.skip(i + 1) =~= escape(a) + p.skip(k));
    lemma_escape_prefix(a, t, p.skip(k), y);
    let rest = escape(t.skip(a.len() as int)) + seq!['"'];
    assert(p.skip(k) =~= rest + y);
    assert(p.skip(k).take(rest.len() as int) =~= rest);
}

proof fn lemma_no_escape_here(p: Seq<char>, i: int, k: int, a: Seq<char>, t: Seq<char>)
    requires
        0 <= i < k < p.len(),
        p.subrange(i + 1, k) == escape(a),
        p[k] != '"',
        forall|c: char| !(#[trigger] escape_char(c)).is_prefix_of(p.skip(k)),
    ensures
        !json_string(t).is_prefix_of(p.skip(i)),
{
    if !json_string(t).is_prefix_of(p.skip(i)) {
        return;
    }
    lemma_literal_rest(p, i, k, a, t);
    let r = t.skip(a.len() as int);
    let w = escape(r) + seq!['"'];
    if r.len() == 0 {
        assert(p.skip(k)[0] == w[0]);
    } else {
        assert(escape(r) =~= escape_char(r[0]) + escape(r.drop_first()));
        let e = escape_char(r[0]);
        assert(w =~= e + (escape(r.drop_first()) + seq!['"']));
        assert forall|j: int| 0 <= j < e.len() implies e[j] == p.skip(k)[j] by {
            assert(w[j] == e[j]);
            assert(p.skip(k).take(w.len() as int)[j] == p.skip(k)[j]);
        }
        assert(e.is_prefix_of(p.skip(k)));
    }
}

proof fn lemma_string_runs_on(p: Seq<char>, i: int, k: int, a: Seq<char>, t: Seq<char>)
    requires
        0 <= i < k,
        k == p.len(),
        p.subrange(i + 1, k) == escape(a),
    ensures
        !json_string(t).is_prefix_of(p.skip(i)),
{
    if json_string(t).is_prefix_of(p.skip(i)) {
        lemma_literal_rest(p, i, k, a, t);
    }
}


/// The numeral of `n` stands at `i` and is not followed by another digit.
pub open spec fn number_at(p: Seq<char>, i: int, n: nat) -> bool {
    let d = decimal(n);
    &&& 0 <= i <= p.len()
    &&& d.is_prefix_of(p.skip(i))
    &&& (i + d.len() == p.len() || !is_digit(p[i + d.len()]))
}

/// Reads the decimal numeral of a `u32` at `i`.
pub fn parse_u32(p: &Vec<char>, i: usize) -> (r: Option<(u32, usize)>)
    requires
        i <= p@.len(),
    ensures
        match r {
            Some((n, j)) => i < j <= p@.len() && p@.subrange(i as int, j as int) == decimal(n as nat)
                && number_at(p@, i as int, n as nat),
            None => forall|n: u32| !#[trigger] number_at(p@, i as int, n as nat),
        },
{
    let len = p.len();
    let mut j: usize = i;
    while j < len && is_digit_char(p[j])
        invariant
            i <= j <= len,
            len == p@.len(),
            forall|k: int| i <= k < j ==> is_digit(#[trigger] p@[k]),
        decreases len - j,
    {
        j = j + 1;
    }
    let ghost run = p@.subrange(i as int, j as int);
    assert(all_digits(run)) by {
        assert forall|k: int| 0 <= k < run.len() implies is_digit(#[trigger] run[k]) by {
            assert(run[k] == p@[i + k]);
        }
    }
    // Any numeral at `i` is exactly the run of digits found.
    assert forall|n: u32| #[trigger] number_at(p@, i as int, n as nat) implies decimal(n as nat) == run by {
        lemma_numeral_is_run(p@, i as int, j as int, n as nat);
    }
    if j == i || (p[i] == '0' && j - i > 1) {
        assert forall|n: u32| !#[trigger] number_at(p@, i as int, n as nat) by {
            if number_at(p@, i as int, n as nat) {
                lemma_decimal_digits(n as nat);
            }
        }
        return None;
    }
    let mut acc: u64 = 0;
    let mut k: usize = i;
    while k < j
        invariant
            i <= k <= j <= len,
            len == p@.len(),
            run == p@.subrange(i as int, j as int),
            all_digits(run),
            acc == digits_value(run.take(k - i)),
            acc <= 0xffff_ffff,
            forall|n: u32| #[trigger] number_at(p@, i as int, n as nat) ==> decimal(n as nat) == run,
        decreases j - k,
    {
        let c = p[k];
        assert(run[k - i] == c);
        let d = (c as u32 - 48) as u64;
        acc = acc * 10 + d;
        proof {
            assert(run.take(k - i + 1).drop_last() =~= run.take(k - i));
            assert(run.take(k - i + 1).last() == c);
        }
        if acc > 0xffff_ffff {
            assert forall|n: u32| !#[trigger] number_at(p@, i as int, n as nat) by {
                if number_at(p@, i as int, n as nat) {
                    lemma_decimal_digits(n as nat);
                    lemma_digits_value_prefix(run, k - i + 1);
                }
            }
            return None;
        }
        k = k + 1;
    }
    assert(run.take(j - i) =~= run);
    proof {
        lemma_digits_canonical(run);
    }
    let n = acc as u32;
    assert(p@.skip(i as int).take(run.len() as int) =~= run);
    Some((n, j))
}

proof fn lemma_numeral_is_run(p: Seq<char>, i: int, j: int, n: nat)
    requires
        0 <= i <= j <= p.len(),
        forall|k: int| i <= k < j ==> is_digit(#[trigger] p[k]),
        j == p.len() || !is_digit(p[j]),
        number_at(p, i, n),
    ensures
        decimal(n) == p.subrange(i, j),
{
    lemma_decimal_digits(n);
    let d = decimal(n);
    let e = i + d.len();
    assert forall|k: int| i <= k < e implies p[k] == d[k - i] by {
        assert(p.skip(i)[k - i] == p[k]);
    }
    if e < j {
        assert(is_digit(p[e]));
    }
    if j < e {
        assert(is_digit(d[j - i]));
    }
    assert(d =~= p.subrange(i, j));
}


/// A JSON object key followed by its colon.
pub open spec fn field_key(k: Seq<char>) -> Seq<char> {
    json_string(k) + seq![':']
}

pub proof fn lemma_prefix_left(a: Seq<char>, b: Seq<char>, q: Seq<char>)
    requires
        (a + b).is_prefix_of(q),
    ensures
        a.is_prefix_of(q),
{
    assert forall|k: int| 0 <= k < a.len() implies a[k] == q[k] by {
        assert((a + b)[k] == a[k]);
    }
    assert(a =~= q.take(a.len() as int));
}

/// Having read exactly `a` from `i` to `j`, what was to follow `a` follows at `j`.
pub proof fn lemma_advance(p: Seq<char>, i: int, j: int, a: Seq<char>, b: Seq<char>)
    requires
        0 <= i <= j <= p.len(),
        p.subrange(i, j) == a,
        (a + b).is_prefix_of(p.skip(i)),
    ensures
        b.is_prefix_of(p.skip(j)),
{
    assert forall|k: int| 0 <= k < b.len() implies b[k] == p.skip(j)[k] by {
        assert((a + b)[a.len() + k] == b[k]);
        assert(p.skip(i)[a.len() + k] == p.skip(j)[k]);
    }
    assert(b =~= p.skip(j).take(b.len() as int));
}

/// Having read the literal of `s` from `i` to `j` where the literal of `t` was to
/// stand, `s` is `t`, and what was to follow comes next.
pub proof fn lemma_advance_string(
    p: Seq<char>,
    i: int,
    j: int,
    s: Seq<char>,
    t: Seq<char>,
    b: Seq<char>,
)
    requires
        0 <= i <= j <= p.len(),
        p.subrange(i, j) == json_string(s),
        (json_string(t) + b).is_prefix_of(p.skip(i)),
    ensures
        s == t,
        b.is_prefix_of(p.skip(j)),
{
    let q = p.skip(i);
    let x = q.skip(json_string(t).len() as int);
    let y = p.skip(j);
    assert(q =~= json_string(t) + x) by {
        lemma_prefix_left(json_string(t), b, q);
    }
    assert(q =~= json_string(s) + y);
    lemma_json_string_prefix_free(s, t, y, x);
    lemma_advance(p, i, j, json_string(t), b);
}

/// Two numerals at the same place are the same number.
pub proof fn lemma_number_unique(p: Seq<char>, i: int, n: nat, m: nat)
    requires
        number_at(p, i, n),
        number_at(p, i, m),
    ensures
        n == m,
{
    lemma_decimal_digits(n);
    lemma_decimal_digits(m);
    let dn = decimal(n);
    let dm = decimal(m);
    if dn.len() < dm.len() {
        assert(dm[dn.len() as int] == p.skip(i).subrange(0, dm.len() as int)[dn.len() as int]);
        assert(p.skip(i)[dn.len() as int] == p[i + dn.len()]);
        assert(is_digit(dm[dn.len() as int]));
    } else if dm.len() < dn.len() {
        assert(dn[dm.len() as int] == p.skip(i).subrange(0, dn.len() as int)[dm.len() as int]);
        assert(p.skip(i)[dm.len() as int] == p[i + dm.len()]);
        assert(is_digit(dn[dm.len() as int]));
    }
    assert(dn =~= dm) by {
        assert forall|k: int| 0 <= k < dn.len() implies dn[k] == dm[k] by {
            assert(dn[k] == p.skip(i).subrange(0, dn.len() as int)[k]);
            assert(dm[k] == p.skip(i).subrange(0, dm.len() as int)[k]);
        }
    }
}

/// Having read the numeral of `n` from `i` to `j` where the numeral of `m` was to
/// stand, followed by something that is not a digit, `n` is `m`.
pub proof fn lemma_advance_number(p: Seq<char>, i: int, j: int, n: nat, m: nat, b: Seq<char>)
    requires
        0 <= i <= j <= p.len(),
        p.subrange(i, j) == decimal(n),
        number_at(p, i, n),
        (decimal(m) + b).is_prefix_of(p.skip(i)),
        b.len() > 0,
        !is_digit(b[0]),
    ensures
        n == m,
        b.is_prefix_of(p.skip(j)),
{
    lemma_prefix_left(decimal(m), b, p.skip(i));
    let e = i + decimal(m).len();
    assert((decimal(m) + b)[decimal(m).len() as int] == b[0]);
    assert(p.skip(i)[decimal(m).len() as int] == p[e]);
    assert(number_at(p, i, m));
    lemma_number_unique(p, i, n, m);
    lemma_advance(p, i, j, decimal(m), b);
}

/// Reads the key `k` of an object field, with its colon, at `i`.
pub fn parse_field_key(p: &Vec<char>, i: usize, k: &str) -> (r: Option<usize>)
    requires
        i <= p@.len(),
    ensures
        match r {
            Some(j) => i < j <= p@.len() && p@.subrange(i as int, j as int) == field_key(k@),
            None => !field_key(k@).is_prefix_of(p@.skip(i as int)),
        },
{
    match parse_string(p, i) {
        None => {
            proof {
                if field_key(k@).is_prefix_of(p@.skip(i as int)) {
                    lemma_prefix_left(json_string(k@), seq![':'], p@.skip(i as int));
                }
            }
            None
        },
        Some((s, j)) => {
            let key = String::from_str(k);
            if s != key {
                proof {
                    if field_key(k@).is_prefix_of(p@.skip(i as int)) {
                        lemma_advance_string(p@, i as int, j as int, s@, k@, seq![':']);
                    }
                }
                return None;
            }
            let len = p.len();
            if !char_at(p, j, ':') {
                proof {
                    if field_key(k@).is_prefix_of(p@.skip(i as int)) {
                        lemma_advance_string(p@, i as int, j as int, s@, k@, seq![':']);
                        assert(seq![':'][0] == p@.skip(j as int)[0]);
                    }
                }
                return None;
            }
            assert(j < len);
            assert(p@.subrange(i as int, j + 1) =~= p@.subrange(i as int, j as int) + seq![':']);
            Some(j + 1)
        },
    }
}

} // verus!

//! Small verified string utilities shared by the rest of the crate.
use vstd::prelude::*;

verus! {

/// Appends one character to a string (`String::push`).
#[verifier::external_body]
pub(crate) fn push_char(s: &mut String, c: char)
    ensures
        final(s)@ == old(s)@.push(c),
{
    s.push(c);
}

/// The characters of a string, in order.
pub fn chars_of(s: &str) -> (res: Vec<char>)
    ensures
        res@ == s@,
{
    broadcast use vstd::string::group_string_axioms;
    let mut res: Vec<char> = Vec::new();
    for c in it: s.chars()
        invariant
            res@ == it.seq().take(it.index() as int),
            it.seq() == s@,
    {
        res.push(c);
    }
    res
}


/// The ASCII digit for a value below ten.
pub open spec fn digit_char(d: nat) -> char {
    (d + 48) as char
}

/// The decimal digits of a natural number, most significant first, without
/// leading zeros (zero itself is `"0"`).
pub open spec fn decimal(n: nat) -> Seq<char>
    decreases n,
{
    if n < 10 {
        seq![digit_char(n)]
    } else {
        decimal(n / 10).push(digit_char(n % 10))
    }
}

/// The decimal text of an integer: a minus sign for negative values, then
/// the digits of its magnitude.
pub open spec fn int_decimal(n: int) -> Seq<char> {
    if n < 0 {
        seq!['-'] + decimal((-n) as nat)
    } else {
        decimal(n as nat)
    }
}

pub(crate) fn digit(d: u64) -> (c: char)
    requires
        d < 10,
    ensures
        c == digit_char(d as nat),
{
    ((d as u8) + 48u8) as char
}

/// Appends the decimal digits of `n`.
pub(crate) fn push_decimal(out: &mut String, n: u64)
    ensures
        final(out)@ == old(out)@ + decimal(n as nat),
    decreases n,
{
    if n >= 10 {
        push_decimal(out, n / 10);
    }
    push_char(out, digit(n % 10));
    assert(out@ =~= old(out)@ + decimal(n as nat));
}

/// Appends the decimal text of a signed integer.
pub(crate) fn push_int_decimal(out: &mut String, n: i64)
    ensures
        final(out)@ == old(out)@ + int_decimal(n as int),
{
    if n < 0 {
        push_char(out, '-');
        let m: u64 = (0i128 - n as i128) as u64;
        push_decimal(out, m);
        assert(out@ =~= old(out)@ + int_decimal(n as int));
    } else {
        push_decimal(out, n as u64);
    }
}

/// The digits of a decimal text are ASCII digits.
pub proof fn lemma_decimal_digits(n: nat)
    ensures
        forall|i: int| 0 <= i < decimal(n).len() ==> 48 <= #[trigger] (decimal(n)[i] as int) < 58,
    decreases n,
{
    if n >= 10 {
        lemma_decimal_digits(n / 10);
        assert forall|i: int| 0 <= i < decimal(n).len() implies 48 <= #[trigger] (decimal(n)[i] as int) < 58 by {
            if i < decimal(n / 10).len() {
                assert(decimal(n)[i] == decimal(n / 10)[i]);
            }
        }
    }
}

/// The decimal text of an integer (`i64::to_string`).
pub fn int_to_string(n: i64) -> (res: String)
    ensures
        res@ == int_decimal(n as int),
{
    let mut res = String::new();
    push_int_decimal(&mut res, n);
    assert(res@ =~= int_decimal(n as int));
    res
}


/// The order of strings: lexicographic by code point, which is the order of
/// their UTF-8 bytes and so the order of `str` and `String`.
pub open spec fn str_lt(a: Seq<char>, b: Seq<char>) -> bool
    decreases a.len(),
{
    if a.len() == 0 {
        b.len() > 0
    } else if b.len() == 0 {
        false
    } else if a[0] != b[0] {
        (a[0] as int) < (b[0] as int)
    } else {
        str_lt(a.drop_first(), b.drop_first())
    }
}

pub proof fn lemma_str_lt_irreflexive(a: Seq<char>)
    ensures
        !str_lt(a, a),
    decreases a.len(),
{
    if a.len() > 0 {
        lemma_str_lt_irreflexive(a.drop_first());
    }
}

pub proof fn lemma_str_lt_asymmetric(a: Seq<char>, b: Seq<char>)
    ensures
        !(str_lt(a, b) && str_lt(b, a)),
    decreases a.len(),
{
    if a.len() > 0 && b.len() > 0 && a[0] == b[0] {
        lemma_str_lt_asymmetric(a.drop_first(), b.drop_first());
    }
}

pub proof fn lemma_str_lt_transitive(a: Seq<char>, b: Seq<char>, c: Seq<char>)
    requires
        str_lt(a, b),
        str_lt(b, c),
    ensures
        str_lt(a, c),
    decreases a.len(),
{
    if a.len() > 0 && b.len() > 0 && c.len() > 0 && a[0] == b[0] && b[0] == c[0] {
        lemma_str_lt_transitive(a.drop_first(), b.drop_first(), c.drop_first());
    }
}

pub proof fn lemma_str_lt_total(a: Seq<char>, b: Seq<char>)
    ensures
        a == b || str_lt(a, b) || str_lt(b, a),
    decreases a.len(),
{
    if a.len() > 0 && b.len() > 0 {
        if a[0] == b[0] {
            lemma_str_lt_total(a.drop_first(), b.drop_first());
            if a.drop_first() == b.drop_first() {
                assert(a =~= seq![a[0]] + a.drop_first());
                assert(b =~= seq![b[0]] + b.drop_first());
            }
        } else {
            assert((a[0] as int) != (b[0] as int));
        }
    } else if a.len() == 0 && b.len() == 0 {
        assert(a =~= b);
    }
}

proof fn lemma_str_lt_skip(a: Seq<char>, b: Seq<char>, i: int)
    requires
        0 <= i < a.len(),
        i < b.len(),
        a[i] == b[i],
    ensures
        str_lt(a.skip(i), b.skip(i)) == str_lt(a.skip(i + 1), b.skip(i + 1)),
{
    assert(a.skip(i).drop_first() =~= a.skip(i + 1));
    assert(b.skip(i).drop_first() =~= b.skip(i + 1));
}

/// `a < b` for strings.
pub fn str_less(a: &str, b: &str) -> (res: bool)
    ensures
        res == str_lt(a@, b@),
{
    let x = chars_of(a);
    let y = chars_of(b);
    assert(x@ == a@);
    assert(y@ == b@);
    let mut i: usize = 0;
    assert(x@.skip(0) =~= x@);
    assert(y@.skip(0) =~= y@);
    while i < x.len() && i < y.len() && x[i] == y[i]
        invariant
            i <= x@.len(),
            i <= y@.len(),
            x@ == a@,
            y@ == b@,
            str_lt(x@, y@) == str_lt(x@.skip(i as int), y@.skip(i as int)),
        decreases x@.len() - i,
    {
        proof {
            lemma_str_lt_skip(x@, y@, i as int);
        }
        i = i + 1;
    }
    assert(x@.skip(i as int).len() == x@.len() - i);
    assert(y@.skip(i as int).len() == y@.len() - i);
    if i == x.len() {
        let r = i < y.len();
        assert(r == str_lt(x@.skip(i as int), y@.skip(i as int)));
        r
    } else if i == y.len() {
        assert(!str_lt(x@.skip(i as int), y@.skip(i as int)));
        false
    } else {
        let c = x[i];
        let d = y[i];
        assert(x@.skip(i as int)[0] == c);
        assert(y@.skip(i as int)[0] == d);
        assert(c != d);
        let r = c < d;
        assert(r == ((c as int) < (d as int)));
        r
    }
}

/// The number of bytes of a character in UTF-8.
pub open spec fn utf8_width(c: char) -> nat {
    if (c as int) < 0x80 {
        1
    } else if (c as int) < 0x800 {
        2
    } else if (c as int) < 0x10000 {
        3
    } else {
        4
    }
}

/// The number of leading characters of `s` whose UTF-8 bytes are exactly the
/// first `n` bytes of `s`; `None` where `s` is shorter than `n` bytes or byte
/// `n` falls inside a character.
pub open spec fn chars_in_bytes(s: Seq<char>, n: int) -> Option<nat>
    decreases s.len(),
{
    if n == 0 {
        Some(0)
    } else if s.len() == 0 || n < 0 || utf8_width(s[0]) > n {
        None
    } else {
        match chars_in_bytes(s.drop_first(), n - utf8_width(s[0])) {
            Some(k) => Some(k + 1),
            None => None,
        }
    }
}

/// `&s[..n]` is defined: `s` has a character boundary at byte `n`.
pub open spec fn has_byte_prefix(s: Seq<char>, n: int) -> bool {
    chars_in_bytes(s, n) is Some
}

/// The characters of `&s[..n]`.
pub open spec fn byte_prefix(s: Seq<char>, n: int) -> Seq<char> {
    s.take(chars_in_bytes(s, n).unwrap() as int)
}

proof fn lemma_chars_in_bytes_step(s: Seq<char>, i: int, n: int, used: int)
    requires
        0 <= i < s.len(),
        0 <= used < n,
        chars_in_bytes(s, n) == (match chars_in_bytes(s.skip(i), n - used) {
            Some(k) => Some(k + i as nat),
            None => None,
        }),
        utf8_width(s[i]) <= n - used,
    ensures
        chars_in_bytes(s, n) == (match chars_in_bytes(s.skip(i + 1), n - used - utf8_width(s[i])) {
            Some(k) => Some(k + (i + 1) as nat),
            None => None,
        }),
{
    assert(s.skip(i).drop_first() =~= s.skip(i + 1));
}

/// Every character is ASCII.
pub open spec fn is_ascii_text(s: Seq<char>) -> bool {
    forall|i: int| 0 <= i < s.len() ==> (#[trigger] s[i] as int) < 128
}

/// The first `n` characters of `s` are ASCII: they take one byte each, so
/// byte `n` ends the `n`-th character.
pub proof fn lemma_ascii_bytes(s: Seq<char>, n: int)
    requires
        0 <= n <= s.len(),
        is_ascii_text(s.take(n)),
    ensures
        chars_in_bytes(s, n) == Some(n as nat),
    decreases n,
{
    if n > 0 {
        assert(s.take(n)[0] == s[0]);
        let rest = s.drop_first();
        assert forall|i: int| 0 <= i < rest.take(n - 1).len() implies (#[trigger] rest.take(n - 1)[i]
            as int) < 128 by {
            assert(rest.take(n - 1)[i] == s.take(n)[i + 1]);
        }
        lemma_ascii_bytes(rest, n - 1);
    }
}

fn char_width(c: char) -> (w: usize)
    ensures
        w == utf8_width(c),
{
    if '\u{80}' > c {
        1
    } else if '\u{800}' > c {
        2
    } else if '\u{10000}' > c {
        3
    } else {
        4
    }
}

/// `&s[..n]` as a new string; `None` where that slice would panic.
pub fn str_byte_prefix(s: &str, n: usize) -> (res: Option<String>)
    ensures
        res is Some <==> has_byte_prefix(s@, n as int),
        res matches Some(p) ==> p@ == byte_prefix(s@, n as int),
{
    let x = chars_of(s);
    assert(x@ == s@);
    let mut i: usize = 0;
    let mut used: usize = 0;
    let mut out = String::new();
    assert(x@.skip(0) =~= x@);
    while used < n
        invariant
            i <= x@.len(),
            used <= n,
            x@ == s@,
            out@ == x@.take(i as int),
            chars_in_bytes(x@, n as int) == (match chars_in_bytes(x@.skip(i as int), n - used) {
                Some(k) => Some(k + i as nat),
                None => None,
            }),
        decreases n - used,
    {
        if i == x.len() {
            assert(x@.skip(i as int).len() == 0);
            assert(chars_in_bytes(x@.skip(i as int), n - used) is None);
            return None;
        }
        let w = char_width(x[i]);
        if w > n - used {
            assert(x@.skip(i as int)[0] == x@[i as int]);
            return None;
        }
        proof {
            lemma_chars_in_bytes_step(x@, i as int, n as int, used as int);
        }
        push_char(&mut out, x[i]);
        assert(out@ =~= x@.take(i + 1));
        i = i + 1;
        used = used + w;
    }
    Some(out)
}

/// `s.starts_with(p)`.
pub open spec fn starts_with(s: Seq<char>, p: Seq<char>) -> bool {
    p.len() <= s.len() && s.take(p.len() as int) == p
}

/// `s.starts_with(p)` for strings.
pub fn str_starts_with(s: &str, p: &str) -> (res: bool)
    ensures
        res == starts_with(s@, p@),
{
    let x = chars_of(s);
    let y = chars_of(p);
    assert(x@ == s@);
    assert(y@ == p@);
    if y.len() > x.len() {
        return false;
    }
    let mut i: usize = 0;
    while i < y.len()
        invariant
            y@.len() <= x@.len(),
            i <= y@.len(),
            x@ == s@,
            y@ == p@,
            x@.take(i as int) == y@.take(i as int),
        decreases y@.len() - i,
    {
        if x[i] != y[i] {
            assert(x@.take(y@.len() as int)[i as int] != y@[i as int]);
            assert(s@.take(p@.len() as int)[i as int] != p@[i as int]);
            return false;
        }
        assert(x@.take(i + 1) =~= x@.take(i as int).push(x@[i as int]));
        assert(y@.take(i + 1) =~= y@.take(i as int).push(y@[i as int]));
        i = i + 1;
    }
    assert(y@.take(y@.len() as int) =~= y@);
    true
}

} // verus!

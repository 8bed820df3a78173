//! Text exports of the worklog entries: the TOON table.
use vstd::prelude::*;
use crate::jira::Entry;
use crate::display::{lemma_pieces_extend, lemma_pieces_newline, lines_of, pieces, without_cr};
use crate::text::{
    chars_of, decimal, int_decimal, int_to_string, lemma_decimal_digits, push_char, push_decimal,
};

verus! {

/// `c.is_whitespace()`: the characters with the Unicode `White_Space`
/// property.
pub open spec fn is_white_space(c: char) -> bool {
    ||| ('\u{9}' <= c && c <= '\u{d}')
    ||| c == ' '
    ||| c == '\u{85}'
    ||| c == '\u{a0}'
    ||| c == '\u{1680}'
    ||| ('\u{2000}' <= c && c <= '\u{200a}')
    ||| c == '\u{2028}'
    ||| c == '\u{2029}'
    ||| c == '\u{202f}'
    ||| c == '\u{205f}'
    ||| c == '\u{3000}'
}

/// Characters that a TOON value cannot hold unquoted.
pub open spec fn is_toon_special(c: char) -> bool {
    ||| c == ','
    ||| c == ':'
    ||| c == '|'
    ||| c == '['
    ||| c == ']'
    ||| c == '{'
    ||| c == '}'
    ||| c == '"'
    ||| c == '\\'
    ||| c == '\n'
    ||| c == '\r'
    ||| c == '\t'
}

/// A value is quoted when it is empty, starts or ends with white space, or
/// holds a special character.
pub open spec fn needs_quotes(s: Seq<char>) -> bool {
    ||| s.len() == 0
    ||| is_white_space(s[0])
    ||| is_white_space(s[s.len() - 1])
    ||| exists|i: int| 0 <= i < s.len() && is_toon_special(#[trigger] s[i])
}

/// How one character is written inside quotes.
pub open spec fn escape_char(c: char) -> Seq<char> {
    if c == '\\' {
        seq!['\\', '\\']
    } else if c == '"' {
        seq!['\\', '"']
    } else if c == '\n' {
        seq!['\\', 'n']
    } else if c == '\r' {
        seq!['\\', 'r']
    } else if c == '\t' {
        seq!['\\', 't']
    } else {
        seq![c]
    }
}

pub open spec fn escaped(s: Seq<char>) -> Seq<char>
    decreases s.len(),
{
    if s.len() == 0 {
        Seq::empty()
    } else {
        escaped(s.drop_last()) + escape_char(s.last())
    }
}

/// A value as TOON writes it.
pub open spec fn toon_value(s: Seq<char>) -> Seq<char> {
    if needs_quotes(s) {
        seq!['"'] + escaped(s) + seq!['"']
    } else {
        s
    }
}

/// The fields of one entry, in the order of the header.
pub open spec fn toon_fields(e: Entry) -> Seq<Seq<char>> {
    seq![
        e.key@,
        e.summary@,
        e.status@,
        int_decimal(e.seconds as int),
        e.started@,
        e.url@,
        e.description@,
    ]
}

/// Values written as TOON and separated by commas.
pub open spec fn toon_values(fields: Seq<Seq<char>>) -> Seq<char>
    decreases fields.len(),
{
    if fields.len() == 0 {
        Seq::empty()
    } else if fields.len() == 1 {
        toon_value(fields[0])
    } else {
        toon_values(fields.drop_last()) + seq![','] + toon_value(fields.last())
    }
}

/// The row of one entry: indented, its fields separated by commas.
pub open spec fn toon_row(e: Entry) -> Seq<char> {
    seq![' ', ' '] + toon_values(toon_fields(e))
}

/// The rows of the entries, each after a line break.
pub open spec fn toon_rows(es: Seq<Entry>) -> Seq<char>
    decreases es.len(),
{
    if es.len() == 0 {
        Seq::empty()
    } else {
        toon_rows(es.drop_last()) + seq!['\n'] + toon_row(es.last())
    }
}

/// The TOON document of the entries.
pub open spec fn toon_text(es: Seq<Entry>) -> Seq<char> {
    if es.len() == 0 {
        "entries[0]:\n"@
    } else {
        toon_header(es.len()) + toon_rows(es) + seq!['\n']
    }
}

/// A character after a backslash inside quotes, as it is read back.
pub open spec fn unescape_char(c: char) -> char {
    if c == 'n' {
        '\n'
    } else if c == 'r' {
        '\r'
    } else if c == 't' {
        '\t'
    } else {
        c
    }
}

/// Reads a quoted value after its opening quote, left to right: the
/// characters up to the closing quote, each backslash pair decoded, and what
/// follows the closing quote.
pub open spec fn read_quoted(s: Seq<char>) -> (Seq<char>, Seq<char>)
    decreases s.len(),
{
    if s.len() == 0 {
        (Seq::empty(), Seq::empty())
    } else if s[0] == '"' {
        (Seq::empty(), s.drop_first())
    } else if s[0] == '\\' && s.len() >= 2 {
        let r = read_quoted(s.skip(2));
        (seq![unescape_char(s[1])] + r.0, r.1)
    } else {
        let r = read_quoted(s.drop_first());
        (seq![s[0]] + r.0, r.1)
    }
}

/// Reads an unquoted value: the characters up to the next comma, and what
/// follows from that comma on.
pub open spec fn read_plain(s: Seq<char>) -> (Seq<char>, Seq<char>)
    decreases s.len(),
{
    if s.len() == 0 || s[0] == ',' {
        (Seq::empty(), s)
    } else {
        let r = read_plain(s.drop_first());
        (seq![s[0]] + r.0, r.1)
    }
}

/// Reads one value of a row: quoted where it starts with a quote.
pub open spec fn read_value(s: Seq<char>) -> (Seq<char>, Seq<char>) {
    if s.len() > 0 && s[0] == '"' {
        read_quoted(s.drop_first())
    } else {
        read_plain(s)
    }
}

/// Reads the values of a row, left to right: a value, then after each comma
/// that follows a value, the next one.
pub open spec fn read_values(s: Seq<char>) -> Seq<Seq<char>>
    decreases s.len(),
{
    let r = read_value(s);
    if r.1.len() > 0 && r.1[0] == ',' && r.1.len() <= s.len() {
        seq![r.0] + read_values(r.1.drop_first())
    } else {
        seq![r.0]
    }
}

proof fn lemma_escaped_first(x: Seq<char>)
    requires
        x.len() > 0,
    ensures
        escaped(x) == escape_char(x[0]) + escaped(x.drop_first()),
    decreases x.len(),
{
    if x.len() == 1 {
        assert(x.drop_last() =~= Seq::<char>::empty());
        assert(x.drop_first() =~= Seq::<char>::empty());
        assert(escaped(x.drop_last()) == Seq::<char>::empty());
        assert(escaped(x.drop_first()) == Seq::<char>::empty());
        assert(x.last() == x[0]);
        assert(escaped(x) =~= escape_char(x[0]));
    } else {
        lemma_escaped_first(x.drop_last());
        assert(x.drop_last().drop_first() =~= x.drop_first().drop_last());
        assert(x.drop_first().last() == x.last());
        assert(x.drop_last()[0] == x[0]);
        assert(escaped(x) =~= escape_char(x[0]) + escaped(x.drop_first()));
    }
}

/// An escaped text has no line feed and no carriage return.
proof fn lemma_escaped_one_line(x: Seq<char>)
    ensures
        !escaped(x).contains('\n'),
        !escaped(x).contains('\r'),
    decreases x.len(),
{
    if x.len() > 0 {
        lemma_escaped_one_line(x.drop_last());
        let e = escaped(x);
        let a = escaped(x.drop_last());
        let b = escape_char(x.last());
        assert(e == a + b);
        assert forall|i: int| 0 <= i < e.len() implies e[i] != '\n' && e[i] != '\r' by {
            if i < a.len() {
                assert(e[i] == a[i]);
            } else {
                assert(e[i] == b[i - a.len()]);
            }
        }
    }
}

/// Reading back the escaped text of `x` and its closing quote gives `x` and
/// what follows.
#[verifier::rlimit(40)]
proof fn lemma_read_quoted(x: Seq<char>, rest: Seq<char>)
    ensures
        read_quoted(escaped(x) + seq!['"'] + rest) == (x, rest),
    decreases x.len(),
{
    let s = escaped(x) + seq!['"'] + rest;
    if x.len() == 0 {
        assert(s =~= seq!['"'] + rest);
        assert(s.drop_first() =~= rest);
    } else {
        lemma_escaped_first(x);
        let t = escaped(x.drop_first()) + seq!['"'] + rest;
        lemma_read_quoted(x.drop_first(), rest);
        let c = x[0];
        let ec = escape_char(c);
        assert(s =~= ec + t);
        assert(x =~= seq![c] + x.drop_first());
        if c == '\\' || c == '"' || c == '\n' || c == '\r' || c == '\t' {
            assert(ec.len() == 2 && ec[0] == '\\');
            assert(unescape_char(ec[1]) == c);
            assert(s[0] == '\\' && s[1] == ec[1]);
            assert(s.skip(2) =~= t);
        } else {
            assert(ec =~= seq![c]);
            assert(s[0] == c);
            assert(s.drop_first() =~= t);
        }
    }
}

/// A text without commas is read as a whole, up to what follows it.
proof fn lemma_read_plain(x: Seq<char>, rest: Seq<char>)
    requires
        forall|i: int| 0 <= i < x.len() ==> x[i] != ',',
        rest.len() == 0 || rest[0] == ',',
    ensures
        read_plain(x + rest) == (x, rest),
    decreases x.len(),
{
    let s = x + rest;
    if x.len() == 0 {
        assert(s =~= rest);
    } else {
        assert(s[0] == x[0]);
        assert(s.drop_first() =~= x.drop_first() + rest);
        lemma_read_plain(x.drop_first(), rest);
        assert(x =~= seq![x[0]] + x.drop_first());
    }
}

/// A value written as TOON is read back as the value, up to what follows it.
proof fn lemma_read_value(x: Seq<char>, rest: Seq<char>)
    requires
        rest.len() == 0 || rest[0] == ',',
    ensures
        read_value(toon_value(x) + rest) == (x, rest),
        toon_value(x).len() > 0,
        !toon_value(x).contains('\n'),
        !toon_value(x).contains('\r'),
{
    let s = toon_value(x) + rest;
    if needs_quotes(x) {
        lemma_read_quoted(x, rest);
        assert(s.drop_first() =~= escaped(x) + seq!['"'] + rest);
        lemma_escaped_one_line(x);
        let e = escaped(x);
        let v = toon_value(x);
        assert forall|i: int| 0 <= i < v.len() implies v[i] != '\n' && v[i] != '\r' by {
            if 0 < i < v.len() - 1 {
                assert(v[i] == e[i - 1]);
            }
        }
    } else {
        assert(!is_toon_special(x[0]));
        assert(s[0] == x[0]);
        assert forall|i: int| 0 <= i < x.len() implies x[i] != ',' by {
            assert(!is_toon_special(x[i]));
        }
        assert forall|i: int| 0 <= i < x.len() implies x[i] != '\n' && x[i] != '\r' by {
            assert(!is_toon_special(x[i]));
        }
        lemma_read_plain(x, rest);
    }
}

proof fn lemma_toon_values_first(fs: Seq<Seq<char>>)
    requires
        fs.len() >= 2,
    ensures
        toon_values(fs) == toon_value(fs[0]) + seq![','] + toon_values(fs.drop_first()),
    decreases fs.len(),
{
    if fs.len() == 2 {
        assert(fs.drop_last().len() == 1);
        assert(fs.drop_first().len() == 1);
        assert(toon_values(fs.drop_first()) == toon_value(fs[1]));
        assert(toon_values(fs.drop_last()) == toon_value(fs[0]));
    } else {
        lemma_toon_values_first(fs.drop_last());
        assert(fs.drop_last().drop_first() =~= fs.drop_first().drop_last());
        assert(fs.drop_first().last() == fs.last());
        assert(fs.drop_last()[0] == fs[0]);
    }
}

proof fn lemma_read_values(fs: Seq<Seq<char>>)
    requires
        fs.len() >= 1,
    ensures
        read_values(toon_values(fs)) == fs,
        !toon_values(fs).contains('\n'),
        !toon_values(fs).contains('\r'),
    decreases fs.len(),
{
    let s = toon_values(fs);
    if fs.len() == 1 {
        lemma_read_value(fs[0], Seq::empty());
        assert(s =~= toon_value(fs[0]) + Seq::<char>::empty());
        assert(fs =~= seq![fs[0]]);
    } else {
        lemma_toon_values_first(fs);
        let t = toon_values(fs.drop_first());
        lemma_read_value(fs[0], seq![','] + t);
        assert(s =~= toon_value(fs[0]) + (seq![','] + t));
        assert((seq![','] + t).drop_first() =~= t);
        lemma_read_values(fs.drop_first());
        assert(fs =~= seq![fs[0]] + fs.drop_first());
        let v = toon_value(fs[0]);
        assert forall|i: int| 0 <= i < s.len() implies s[i] != '\n' && s[i] != '\r' by {
            if i < v.len() {
                assert(s[i] == v[i]);
            } else if i > v.len() {
                assert(s[i] == t[i - v.len() - 1]);
            }
        }
    }
}

/// A TOON row is one line, and reading it back left to right (splitting at
/// the commas outside quoted values, dropping the quotes and decoding the
/// backslash pairs) gives the fields of its entry.
pub proof fn lemma_toon_row_decodes(e: Entry)
    ensures
        read_values(toon_row(e).skip(2)) == toon_fields(e),
        !toon_row(e).contains('\n'),
        !toon_row(e).contains('\r'),
{
    let fs = toon_fields(e);
    lemma_read_values(fs);
    assert(toon_row(e).skip(2) =~= toon_values(fs));
    let r = toon_row(e);
    assert forall|i: int| 0 <= i < r.len() implies r[i] != '\n' && r[i] != '\r' by {
        if i >= 2 {
            assert(r[i] == toon_values(fs)[i - 2]);
        }
    }
}

/// The header line of a TOON document of `n` entries.
pub open spec fn toon_header(n: nat) -> Seq<char> {
    "entries["@ + decimal(n) + "]{key,summary,status,seconds,started,url,description}:"@
}

proof fn lemma_header_one_line(n: nat)
    ensures
        !toon_header(n).contains('\n'),
        !toon_header(n).contains('\r'),
{
    reveal_strlit("entries[");
    reveal_strlit("]{key,summary,status,seconds,started,url,description}:");
    lemma_decimal_digits(n);
    let a = "entries["@;
    let d = decimal(n);
    let b = "]{key,summary,status,seconds,started,url,description}:"@;
    let h = toon_header(n);
    assert(h == a + d + b);
    assert forall|i: int| 0 <= i < h.len() implies h[i] != '\n' && h[i] != '\r' by {
        if i < a.len() {
            assert(h[i] == a[i]);
        } else if i < a.len() + d.len() {
            assert(h[i] == d[i - a.len()]);
        } else {
            assert(h[i] == b[i - a.len() - d.len()]);
        }
    }
}

/// The pieces between line feeds of the header and the first `k` rows.
proof fn lemma_toon_pieces(h: Seq<char>, es: Seq<Entry>, k: int)
    requires
        0 <= k <= es.len(),
        !h.contains('\n'),
    ensures
        pieces(h + toon_rows(es.take(k))) == seq![h] + Seq::new(k as nat, |i: int| toon_row(es[i])),
    decreases k,
{
    if k == 0 {
        assert(es.take(0) =~= Seq::<Entry>::empty());
        assert(h + toon_rows(es.take(0)) =~= Seq::<char>::empty() + h);
        lemma_pieces_extend(Seq::empty(), h);
        assert(pieces(Seq::<char>::empty() + h) =~= seq![h]);
        assert(seq![h] + Seq::new(0, |i: int| toon_row(es[i])) =~= seq![h]);
    } else {
        lemma_toon_pieces(h, es, k - 1);
        let x = h + toon_rows(es.take(k - 1));
        let r = toon_row(es[k - 1]);
        assert(es.take(k).drop_last() =~= es.take(k - 1));
        assert(es.take(k).last() == es[k - 1]);
        assert(h + toon_rows(es.take(k)) =~= (x + seq!['\n']) + r);
        lemma_pieces_newline(x);
        lemma_toon_row_decodes(es[k - 1]);
        lemma_pieces_extend(x + seq!['\n'], r);
        let before = seq![h] + Seq::new((k - 1) as nat, |i: int| toon_row(es[i]));
        assert(pieces(x + seq!['\n']) == before.push(Seq::empty()));
        assert(Seq::<char>::empty() + r =~= r);
        assert(pieces(h + toon_rows(es.take(k))) =~= seq![h] + Seq::new(k as nat, |i: int| toon_row(es[i])));
    }
}

/// A TOON document of entries is one line per entry after its header: line
/// `i + 1` (counted from 0, as `str::lines` gives them) is the row of entry
/// `i`, which reads back as that entry's fields once its two leading spaces
/// are dropped.
pub proof fn lemma_toon_lines(es: Seq<Entry>)
    requires
        es.len() > 0,
    ensures
        lines_of(toon_text(es)).len() == es.len() + 1,
        lines_of(toon_text(es))[0] == toon_header(es.len()),
        forall|i: int| 0 <= i < es.len() ==> #[trigger] lines_of(toon_text(es))[i + 1] == toon_row(es[i]),
        forall|i: int|
            0 <= i < es.len() ==> {
                &&& (#[trigger] lines_of(toon_text(es))[i + 1]).take(2) == seq![' ', ' ']
                &&& read_values(lines_of(toon_text(es))[i + 1].skip(2)) == toon_fields(es[i])
            },
{
    let h = toon_header(es.len());
    lemma_header_one_line(es.len());
    lemma_toon_pieces(h, es, es.len() as int);
    assert(es.take(es.len() as int) =~= es);
    let body = h + toon_rows(es);
    assert(toon_text(es) =~= body + seq!['\n']);
    lemma_pieces_newline(body);
    let rs = seq![h] + Seq::new(es.len(), |i: int| toon_row(es[i]));
    let p = pieces(toon_text(es));
    assert(p == rs.push(Seq::empty()));
    assert(without_cr(h) == h) by {
        if h.len() > 0 {
            assert(h[h.len() - 1] != '\r');
        }
    }
    assert forall|i: int| 0 <= i < es.len() implies without_cr(#[trigger] toon_row(es[i])) == toon_row(es[i]) by {
        lemma_toon_row_decodes(es[i]);
        let r = toon_row(es[i]);
        if r.len() > 0 {
            assert(r[r.len() - 1] != '\r');
        }
    }
    let lines = lines_of(toon_text(es));
    assert(lines.len() == es.len() + 1);
    assert(lines[0] == without_cr(p[0]));
    assert forall|i: int| 0 <= i < es.len() implies #[trigger] lines[i + 1] == toon_row(es[i]) by {
        assert(lines[i + 1] == without_cr(p[i + 1]));
        assert(p[i + 1] == toon_row(es[i]));
    }
    assert forall|i: int|
        0 <= i < es.len() implies {
            &&& (#[trigger] lines[i + 1]).take(2) == seq![' ', ' ']
            &&& read_values(lines[i + 1].skip(2)) == toon_fields(es[i])
        } by {
        assert(lines[i + 1] == toon_row(es[i]));
        lemma_toon_row_decodes(es[i]);
        assert(toon_row(es[i]).take(2) =~= seq![' ', ' ']);
    }
}

/// The characters that the TOON format reserves inside a value.
pub open spec fn toon_format_reserved(c: char) -> bool {
    ||| c == '[' || c == ']'
    ||| c == '{' || c == '}'
    ||| c == ',' || c == ':' || c == '|' || c == '"' || c == '\\'
    ||| c == '\n' || c == '\r' || c == '\t'
}

/// The Unicode `White_Space` characters, the ones `str::trim` removes.
pub open spec fn unicode_white_space(c: char) -> bool {
    ('\u{9}' <= c && c <= '\u{d}') || c == ' ' || c == '\u{85}' || c == '\u{a0}' || c
        == '\u{1680}' || ('\u{2000}' <= c && c <= '\u{200a}') || c == '\u{2028}' || c
        == '\u{2029}' || c == '\u{202f}' || c == '\u{205f}' || c == '\u{3000}'
}

/// A TOON value is written in quotes, escaped, exactly when it is empty,
/// starts or ends with white space, or holds one of the characters that the
/// TOON format reserves: `,` `:` `|` `[` `]` `{` `}` `"` `\`, line feed,
/// carriage return or tab. Any other value is written as it is.
pub proof fn lemma_toon_quoting(s: Seq<char>)
    ensures
        toon_value(s) == (if s.len() == 0 || unicode_white_space(s[0]) || unicode_white_space(
            s[s.len() - 1],
        ) || (exists|i: int| 0 <= i < s.len() && toon_format_reserved(#[trigger] s[i])) {
            seq!['"'] + escaped(s) + seq!['"']
        } else {
            s
        }),
{
}

pub(crate) fn white_space(c: char) -> (res: bool)
    ensures
        res == is_white_space(c),
{
    ('\u{9}' <= c && c <= '\u{d}') || c == ' ' || c == '\u{85}' || c == '\u{a0}' || c == '\u{1680}'
        || ('\u{2000}' <= c && c <= '\u{200a}') || c == '\u{2028}' || c == '\u{2029}' || c
        == '\u{202f}' || c == '\u{205f}' || c == '\u{3000}'
}

fn toon_special(c: char) -> (res: bool)
    ensures
        res == is_toon_special(c),
{
    c == ',' || c == ':' || c == '|' || c == '[' || c == ']' || c == '{' || c == '}' || c == '"'
        || c == '\\' || c == '\n' || c == '\r' || c == '\t'
}

/// Appends a value as TOON writes it.
fn push_toon_value(out: &mut String, s: &str)
    ensures
        final(out)@ == old(out)@ + toon_value(s@),
{
    let x = chars_of(s);
    let n = x.len();
    let mut quote = n == 0;
    if n > 0 {
        quote = white_space(x[0]) || white_space(x[n - 1]);
    }
    let mut i: usize = 0;
    while i < n && !quote
        invariant
            x@ == s@,
            n == x@.len(),
            i <= n,
            !quote ==> forall|j: int| 0 <= j < i ==> !is_toon_special(#[trigger] x@[j]),
            quote ==> needs_quotes(s@),
            !quote ==> (n > 0 && !is_white_space(x@[0]) && !is_white_space(x@[n - 1])),
        decreases n - i,
    {
        if toon_special(x[i]) {
            quote = true;
        }
        i = i + 1;
    }
    if !quote {
        assert(!needs_quotes(s@));
        out.append(s);
        return;
    }
    push_char(out, '"');
    let ghost start = out@;
    for j in 0..n
        invariant
            x@ == s@,
            n == x@.len(),
            out@ == start + escaped(x@.take(j as int)),
    {
        let c = x[j];
        if c == '\\' {
            push_char(out, '\\');
            push_char(out, '\\');
        } else if c == '"' {
            push_char(out, '\\');
            push_char(out, '"');
        } else if c == '\n' {
            push_char(out, '\\');
            push_char(out, 'n');
        } else if c == '\r' {
            push_char(out, '\\');
            push_char(out, 'r');
        } else if c == '\t' {
            push_char(out, '\\');
            push_char(out, 't');
        } else {
            push_char(out, c);
        }
        assert(x@.take(j + 1).drop_last() =~= x@.take(j as int));
        assert(out@ =~= start + escaped(x@.take(j + 1)));
    }
    assert(x@.take(n as int) =~= x@);
    push_char(out, '"');
    assert(out@ =~= old(out)@ + toon_value(s@));
}

/// Appends the row of one entry.
fn push_toon_row(out: &mut String, e: &Entry)
    ensures
        final(out)@ == old(out)@ + toon_row(*e),
{
    let mut fields: Vec<String> = Vec::new();
    fields.push(e.key.clone());
    fields.push(e.summary.clone());
    fields.push(e.status.clone());
    fields.push(int_to_string(e.seconds));
    fields.push(e.started.clone());
    fields.push(e.url.clone());
    fields.push(e.description.clone());
    let ghost fv = toon_fields(*e);
    assert(fields@.len() == fv.len());
    assert(forall|k: int| 0 <= k < fv.len() ==> #[trigger] fields@[k]@ == fv[k]);
    push_char(out, ' ');
    push_char(out, ' ');
    let ghost start = out@;
    for k in 0..fields.len()
        invariant
            fields@.len() == fv.len(),
            forall|m: int| 0 <= m < fv.len() ==> #[trigger] fields@[m]@ == fv[m],
            out@ == start + toon_values(fv.take(k as int)),
    {
        if k > 0 {
            push_char(out, ',');
        }
        push_toon_value(out, fields[k].as_str());
        assert(fv.take(k + 1).drop_last() =~= fv.take(k as int));
        if k == 0 {
            assert(fv.take(1) =~= seq![fv[0]]);
        }
        assert(out@ =~= start + toon_values(fv.take(k + 1)));
    }
    assert(fv.take(fv.len() as int) =~= fv);
    assert(out@ =~= old(out)@ + toon_row(*e));
}

/// The entries as a TOON document: a header naming the fields, then one row
/// per entry.
pub fn to_toon(entries: &[Entry]) -> (res: String)
    ensures
        res@ == toon_text(entries@),
{
    if entries.len() == 0 {
        return String::from_str("entries[0]:\n");
    }
    let mut res = String::from_str("entries[");
    push_decimal(&mut res, entries.len() as u64);
    res.append("]{key,summary,status,seconds,started,url,description}:");
    let ghost head = res@;
    for i in 0..entries.len()
        invariant
            res@ == head + toon_rows(entries@.take(i as int)),
    {
        push_char(&mut res, '\n');
        push_toon_row(&mut res, &entries[i]);
        assert(entries@.take(i + 1).drop_last() =~= entries@.take(i as int));
        assert(res@ =~= head + toon_rows(entries@.take(i + 1)));
    }
    assert(entries@.take(entries@.len() as int) =~= entries@);
    push_char(&mut res, '\n');
    res
}

} // verus!

//! Layout decisions of the terminal views: widths, the horizontal rules that
//! head sections, how statuses are shown, and indentation of rendered tables.
use vstd::prelude::*;
use crate::text::{chars_of, push_char};

verus! {

/// The terminal width to lay out for: the number of columns the terminal
/// reports, or 80 where it reports none.
pub fn columns_or_default(columns: u16) -> (res: u16)
    ensures
        res == (if columns == 0 {
            80
        } else {
            columns
        }),
{
    if columns == 0 {
        80
    } else {
        columns
    }
}

/// The width given to a table: four columns less than the terminal, for its
/// indentation and borders; zero on a narrower terminal.
pub fn table_width(columns: u16) -> (res: u16)
    ensures
        res == (if columns >= 4 {
            columns - 4
        } else {
            0
        }),
{
    if columns >= 4 {
        columns - 4
    } else {
        0
    }
}

/// What `console::measure_text_width(s)` gives: the number of terminal
/// columns that `s` takes, ANSI escape codes left out.
pub uninterp spec fn display_width(s: Seq<char>) -> nat;

/// `console::measure_text_width(s)`. Trusted: the result is named by
/// [`display_width`].
#[verifier::external_body]
fn measure_text_width(s: &str) -> (res: usize)
    ensures
        res == display_width(s@),
{
    console::measure_text_width(s)
}

/// `n` copies of the box-drawing character `─`.
pub open spec fn rule_chars(n: nat) -> Seq<char> {
    Seq::new(n, |i: int| '\u{2500}')
}

/// A rule across `width` columns headed by `title`: a full rule where the
/// title is empty; otherwise the styled title between spaces, centered
/// between rule characters (the extra one going right), or alone where it
/// does not fit.
pub open spec fn rule_text(title: Seq<char>, styled: Seq<char>, width: nat) -> Seq<char> {
    let framed = seq![' '] + styled + seq![' '];
    let visual = display_width(title) + 2;
    if title.len() == 0 {
        rule_chars(width)
    } else if visual >= width {
        framed
    } else {
        let remaining = (width - visual) as nat;
        let left = remaining / 2;
        rule_chars(left) + framed + rule_chars((remaining - left) as nat)
    }
}

fn push_rule(out: &mut String, n: usize)
    ensures
        final(out)@ == old(out)@ + rule_chars(n as nat),
{
    let ghost start = out@;
    for i in 0..n
        invariant
            out@ == start + rule_chars(i as nat),
    {
        push_char(out, '\u{2500}');
        assert(out@ =~= start + rule_chars((i + 1) as nat));
    }
}

/// The line of a section rule (see [`rule_text`]); `styled` is the title as
/// it is to be shown, with any terminal styling.
pub fn rule_line(title: &str, styled: &str, width: usize) -> (res: String)
    ensures
        res@ == rule_text(title@, styled@, width as nat),
{
    let mut res = String::new();
    if title.unicode_len() == 0 {
        push_rule(&mut res, width);
        assert(res@ =~= rule_text(title@, styled@, width as nat));
        return res;
    }
    let measured = measure_text_width(title);
    if width < 2 || measured >= width - 2 {
        push_char(&mut res, ' ');
        res.append(styled);
        push_char(&mut res, ' ');
        assert(res@ =~= rule_text(title@, styled@, width as nat));
        return res;
    }
    let remaining = width - 2 - measured;
    let left = remaining / 2;
    push_rule(&mut res, left);
    push_char(&mut res, ' ');
    res.append(styled);
    push_char(&mut res, ' ');
    push_rule(&mut res, remaining - left);
    assert(res@ =~= rule_text(title@, styled@, width as nat));
    res
}

/// A terminal hyperlink (OSC 8): `text` shown, `url` opened when it is
/// clicked.
pub open spec fn hyperlink_text(text: Seq<char>, url: Seq<char>) -> Seq<char> {
    "\u{1b}]8;;"@ + url + "\u{1b}\\"@ + text + "\u{1b}]8;;\u{1b}\\"@
}

/// The issue key as a link to the issue, shown as the key.
pub fn linked_key(key: &str, url: &str) -> (res: String)
    ensures
        res@ == hyperlink_text(key@, url@),
{
    let mut res = String::from_str("\u{1b}]8;;");
    res.append(url);
    res.append("\u{1b}\\");
    res.append(key);
    res.append("\u{1b}]8;;\u{1b}\\");
    res
}

/// The colour in which a status is shown.
#[derive(PartialEq, Eq, Structural, Debug, Clone, Copy)]
pub enum StatusColor {
    Yellow,
    Blue,
    Green,
    White,
    Cyan,
}

/// The colour of a status.
pub open spec fn status_color_of(status: Seq<char>) -> StatusColor {
    if status == "In Progress"@ {
        StatusColor::Yellow
    } else if status == "Review"@ {
        StatusColor::Blue
    } else if status == "Done"@ {
        StatusColor::Green
    } else if status == "To Do"@ {
        StatusColor::White
    } else if status == "Selected for Development"@ {
        StatusColor::Cyan
    } else {
        StatusColor::White
    }
}

/// The icon shown before a status.
pub open spec fn status_icon_of(status: Seq<char>) -> Seq<char> {
    if status == "In Progress"@ {
        "\u{23f3}"@
    } else if status == "Review"@ {
        "\u{1f441} "@
    } else if status == "Done"@ {
        "\u{2713} "@
    } else if status == "To Do"@ {
        "\u{25cb} "@
    } else if status == "Selected for Development"@ {
        "\u{1f3af}"@
    } else {
        "  "@
    }
}

/// How a status is shown: its colour, and its text after its icon.
pub fn status_style(status: &str) -> (res: (StatusColor, String))
    ensures
        res.0 == status_color_of(status@),
        res.1@ == status_icon_of(status@) + seq![' '] + status@,
{
    let s = String::from_str(status);
    let (color, icon) = if s == String::from_str("In Progress") {
        (StatusColor::Yellow, "\u{23f3}")
    } else if s == String::from_str("Review") {
        (StatusColor::Blue, "\u{1f441} ")
    } else if s == String::from_str("Done") {
        (StatusColor::Green, "\u{2713} ")
    } else if s == String::from_str("To Do") {
        (StatusColor::White, "\u{25cb} ")
    } else if s == String::from_str("Selected for Development") {
        (StatusColor::Cyan, "\u{1f3af}")
    } else {
        (StatusColor::White, "  ")
    };
    let mut label = String::from_str(icon);
    push_char(&mut label, ' ');
    label.append(status);
    (color, label)
}

/// The pieces of `s` between line feeds (one more than it has line feeds).
pub open spec fn pieces(s: Seq<char>) -> Seq<Seq<char>>
    decreases s.len(),
{
    if s.len() == 0 {
        seq![Seq::<char>::empty()]
    } else {
        let before = pieces(s.drop_last());
        if s.last() == '\n' {
            before.push(Seq::empty())
        } else {
            before.update(before.len() - 1, before.last().push(s.last()))
        }
    }
}

/// A line without the carriage return that ended it.
pub open spec fn without_cr(line: Seq<char>) -> Seq<char> {
    if line.len() > 0 && line.last() == '\r' {
        line.drop_last()
    } else {
        line
    }
}

/// `s.lines()`: the lines of `s`, split at `\n` or `\r\n`; the text after the
/// last line break is a line only where it is not empty.
pub open spec fn lines_of(s: Seq<char>) -> Seq<Seq<char>> {
    let p = pieces(s);
    let ended = Seq::new((p.len() - 1) as nat, |i: int| without_cr(p[i]));
    if p.last().len() == 0 {
        ended
    } else {
        ended.push(p.last())
    }
}

proof fn lemma_pieces_nonempty(s: Seq<char>)
    ensures
        pieces(s).len() >= 1,
    decreases s.len(),
{
    if s.len() > 0 {
        lemma_pieces_nonempty(s.drop_last());
    }
}

/// Appending text without a line feed extends the last piece.
pub proof fn lemma_pieces_extend(s: Seq<char>, t: Seq<char>)
    requires
        !t.contains('\n'),
    ensures
        pieces(s + t) == pieces(s).update(pieces(s).len() - 1, pieces(s).last() + t),
        pieces(s + t).len() == pieces(s).len(),
    decreases t.len(),
{
    lemma_pieces_nonempty(s);
    if t.len() == 0 {
        assert(s + t =~= s);
        assert(pieces(s).last() + t =~= pieces(s).last());
        assert(pieces(s).update(pieces(s).len() - 1, pieces(s).last()) =~= pieces(s));
    } else {
        let t0 = t.drop_last();
        assert forall|i: int| 0 <= i < t0.len() implies t0[i] != '\n' by {
            assert(t0[i] == t[i]);
        }
        assert(t[t.len() - 1] != '\n');
        lemma_pieces_extend(s, t0);
        assert((s + t).drop_last() =~= s + t0);
        assert((s + t).last() == t.last());
        let p = pieces(s);
        let before = pieces(s + t0);
        assert(before == p.update(p.len() - 1, p.last() + t0));
        assert(before.len() == p.len());
        assert(before.last() == p.last() + t0);
        assert(pieces(s + t) == before.update(before.len() - 1, before.last().push(t.last())));
        assert(p.last() + t0 + seq![t.last()] =~= p.last() + t);
        assert((p.last() + t0).push(t.last()) =~= p.last() + t);
        assert(pieces(s + t) =~= p.update(p.len() - 1, p.last() + t));
    }
}

/// A line feed starts a new, empty piece.
pub proof fn lemma_pieces_newline(s: Seq<char>)
    ensures
        pieces(s + seq!['\n']) == pieces(s).push(Seq::empty()),
{
    assert((s + seq!['\n']).drop_last() =~= s);
}

/// The lines of a rendered table, each indented by two spaces.
pub fn indented_lines(text: &str) -> (res: Vec<String>)
    ensures
        res@.len() == lines_of(text@).len(),
        forall|i: int| 0 <= i < res@.len() ==> #[trigger] res@[i]@ == seq![' ', ' '] + lines_of(text@)[i],
{
    let x = chars_of(text);
    let mut res: Vec<String> = Vec::new();
    let mut current = String::new();
    assert(x@.take(0) =~= Seq::<char>::empty());
    for i in 0..x.len()
        invariant
            x@ == text@,
            pieces(x@.take(i as int)).len() == res@.len() + 1,
            forall|k: int| 0 <= k < res@.len() ==> #[trigger] res@[k]@ == seq![' ', ' '] + without_cr(
                pieces(x@.take(i as int))[k],
            ),
            current@ == pieces(x@.take(i as int)).last(),
    {
        let c = x[i];
        proof {
            lemma_pieces_nonempty(x@.take(i as int));
            assert(x@.take(i + 1).drop_last() =~= x@.take(i as int));
            assert(x@.take(i + 1).last() == c);
        }
        if c == '\n' {
            let chars = chars_of(current.as_str());
            let mut n = chars.len();
            if n > 0 && chars[n - 1] == '\r' {
                n = n - 1;
            }
            let mut line = String::from_str("  ");
            proof {
                reveal_strlit("  ");
                assert(line@ =~= seq![' ', ' '] + chars@.take(0));
            }
            for k in 0..n
                invariant
                    n <= chars@.len(),
                    line@ == seq![' ', ' '] + chars@.take(k as int),
            {
                push_char(&mut line, chars[k]);
                assert(line@ =~= seq![' ', ' '] + chars@.take(k + 1));
            }
            proof {
                reveal_strlit("  ");
                assert(chars@.take(n as int) =~= without_cr(current@));
            }
            let ghost before = res@;
            res.push(line);
            current = String::new();
            proof {
                let p = pieces(x@.take(i + 1));
                assert forall|k: int| 0 <= k < res@.len() implies #[trigger] res@[k]@ == seq![' ', ' ']
                    + without_cr(p[k]) by {
                    if k < before.len() {
                        assert(res@[k] == before[k]);
                    }
                }
            }
        } else {
            push_char(&mut current, c);
            proof {
                let p = pieces(x@.take(i + 1));
                assert forall|k: int| 0 <= k < res@.len() implies #[trigger] res@[k]@ == seq![' ', ' ']
                    + without_cr(p[k]) by {
                }
            }
        }
    }
    assert(x@.take(x@.len() as int) =~= x@);
    proof {
        lemma_pieces_nonempty(x@);
    }
    if current.unicode_len() > 0 {
        let mut line = String::from_str("  ");
        proof {
            reveal_strlit("  ");
        }
        line.append(current.as_str());
        res.push(line);
    }
    res
}

} // verus!

//! Plain text of worklog comments, which Jira returns in the Atlassian
//! Document Format (ADF): a tree of JSON objects whose `"text"` nodes carry
//! the words and whose other nodes hold their children under `"content"`.
use vstd::prelude::*;
use crate::export::{is_white_space, white_space};
use crate::text::{chars_of, push_char};

verus! {

/// A node of an ADF document, holding what the text extraction reads of the
/// JSON value.
pub enum AdfNode {
    /// A JSON object: its `"type"` and `"text"` members where they are
    /// strings, and its `"content"` member where it is an array.
    Object { node_type: Option<String>, text: Option<String>, content: Option<Vec<AdfNode>> },
    /// Any JSON value that is not an object.
    Other,
}

/// `s` without the white space at its start.
pub open spec fn trim_start(s: Seq<char>) -> Seq<char>
    decreases s.len(),
{
    if s.len() > 0 && is_white_space(s[0]) {
        trim_start(s.drop_first())
    } else {
        s
    }
}

/// `s` without the white space at its end.
pub open spec fn trim_end(s: Seq<char>) -> Seq<char>
    decreases s.len(),
{
    if s.len() > 0 && is_white_space(s.last()) {
        trim_end(s.drop_last())
    } else {
        s
    }
}

/// `s.trim()`: `s` without white space at either end.
pub open spec fn trim(s: Seq<char>) -> Seq<char> {
    trim_end(trim_start(s))
}

/// The text of a node: the text of a `"text"` node, or the texts of the
/// children that have any, joined by spaces and trimmed.
pub open spec fn adf_text(n: AdfNode) -> Seq<char>
    decreases n,
{
    match n {
        AdfNode::Other => Seq::empty(),
        AdfNode::Object { node_type, text, content } => {
            if node_type matches Some(t) && t@ == "text"@ {
                match text {
                    Some(t) => t@,
                    None => Seq::empty(),
                }
            } else {
                match content {
                    Some(c) => trim(children_text(c@)),
                    None => Seq::empty(),
                }
            }
        },
    }
}

/// The non-empty texts of a list of nodes, joined by single spaces.
pub open spec fn children_text(nodes: Seq<AdfNode>) -> Seq<char>
    decreases nodes,
{
    if nodes.len() == 0 {
        Seq::empty()
    } else {
        let prev = children_text(nodes.drop_last());
        let t = adf_text(nodes.last());
        if t.len() == 0 {
            prev
        } else if prev.len() == 0 {
            t
        } else {
            prev + seq![' '] + t
        }
    }
}

proof fn lemma_trim_start_skip(x: Seq<char>, a: int)
    requires
        0 <= a < x.len(),
        is_white_space(x[a]),
    ensures
        trim_start(x.skip(a)) == trim_start(x.skip(a + 1)),
{
    assert(x.skip(a).drop_first() =~= x.skip(a + 1));
}

proof fn lemma_trim_end_cut(x: Seq<char>, a: int, b: int)
    requires
        0 <= a < b <= x.len(),
        is_white_space(x[b - 1]),
    ensures
        trim_end(x.subrange(a, b)) == trim_end(x.subrange(a, b - 1)),
{
    assert(x.subrange(a, b).drop_last() =~= x.subrange(a, b - 1));
}

proof fn lemma_trim_start_stable(s: Seq<char>)
    ensures
        trim_start(trim_start(s)) == trim_start(s),
        trim_start(s).len() == 0 || !is_white_space(trim_start(s)[0]),
    decreases s.len(),
{
    if s.len() > 0 && is_white_space(s[0]) {
        lemma_trim_start_stable(s.drop_first());
    }
}

proof fn lemma_trim_end_keeps_start(s: Seq<char>)
    requires
        s.len() == 0 || !is_white_space(s[0]),
    ensures
        trim_end(s).len() == 0 || !is_white_space(trim_end(s)[0]),
        trim_end(s).len() == 0 || !is_white_space(trim_end(s).last()),
        trim_end(trim_end(s)) == trim_end(s),
    decreases s.len(),
{
    if s.len() > 0 && is_white_space(s.last()) {
        if s.len() > 1 {
            assert(s.drop_last()[0] == s[0]);
        }
        lemma_trim_end_keeps_start(s.drop_last());
    }
}

/// Trimming a trimmed text changes nothing: the text of a node other than a
/// `"text"` node has no white space at either end.
pub proof fn lemma_trim_stable(s: Seq<char>)
    ensures
        trim(trim(s)) == trim(s),
        trim(s).len() == 0 || (!is_white_space(trim(s)[0]) && !is_white_space(trim(s).last())),
{
    lemma_trim_start_stable(s);
    let a = trim_start(s);
    lemma_trim_end_keeps_start(a);
    let b = trim_end(a);
    assert(trim_start(b) == b);
}

/// The text of a node that is not a `"text"` node is trimmed.
pub proof fn lemma_node_text_trimmed(n: AdfNode)
    requires
        !(n matches AdfNode::Object { node_type: Some(t), .. } && t@ == "text"@),
    ensures
        trim(adf_text(n)) == adf_text(n),
{
    match n {
        AdfNode::Other => {
            assert(trim_start(Seq::<char>::empty()) == Seq::<char>::empty());
            assert(trim_end(Seq::<char>::empty()) == Seq::<char>::empty());
        },
        AdfNode::Object { node_type, text, content } => {
            match content {
                Some(c) => {
                    lemma_trim_stable(children_text(c@));
                },
                None => {
                    assert(trim_start(Seq::<char>::empty()) == Seq::<char>::empty());
                    assert(trim_end(Seq::<char>::empty()) == Seq::<char>::empty());
                },
            }
        },
    }
}

/// `s.trim()`: `s` without white space at either end.
pub fn trim_white(s: &str) -> (r: String)
    ensures
        r@ == trim(s@),
{
    let x = chars_of(s);
    let n = x.len();
    let mut a: usize = 0;
    assert(x@.skip(0) =~= x@);
    while a < n && white_space(x[a])
        invariant
            n == x@.len(),
            a <= n,
            trim_start(x@) == trim_start(x@.skip(a as int)),
        decreases n - a,
    {
        proof {
            lemma_trim_start_skip(x@, a as int);
        }
        a = a + 1;
    }
    let ghost front = x@.skip(a as int);
    assert(trim_start(x@) == front);
    assert(front =~= x@.subrange(a as int, n as int));
    let mut b: usize = n;
    while b > a && white_space(x[b - 1])
        invariant
            n == x@.len(),
            a <= b <= n,
            trim_end(x@.subrange(a as int, n as int)) == trim_end(x@.subrange(a as int, b as int)),
        decreases b,
    {
        proof {
            lemma_trim_end_cut(x@, a as int, b as int);
        }
        b = b - 1;
    }
    let mut r = String::new();
    let mut i: usize = a;
    while i < b
        invariant
            a <= i <= b <= n,
            n == x@.len(),
            r@ == x@.subrange(a as int, i as int),
        decreases b - i,
    {
        push_char(&mut r, x[i]);
        assert(r@ =~= x@.subrange(a as int, i + 1));
        i = i + 1;
    }
    assert(x@ == s@);
    assert(trim_end(x@.subrange(a as int, b as int)) == x@.subrange(a as int, b as int));
    r
}

/// The plain text of an ADF node: the text of a `"text"` node, or the texts
/// of the node's children joined by spaces and trimmed; empty for anything
/// else.
pub fn extract_adf_text(value: &AdfNode) -> (r: String)
    ensures
        r@ == adf_text(*value),
    decreases value,
{
    match value {
        AdfNode::Other => String::new(),
        AdfNode::Object { node_type, text, content } => {
            let text_kind = String::from_str("text");
            let is_text = match node_type {
                Some(t) => *t == text_kind,
                None => false,
            };
            if is_text {
                match text {
                    Some(t) => t.clone(),
                    None => String::new(),
                }
            } else {
                match content {
                    Some(c) => {
                        let joined = children_text_of(c);
                        trim_white(joined.as_str())
                    },
                    None => String::new(),
                }
            }
        },
    }
}

/// The non-empty texts of a list of nodes, joined by single spaces.
fn children_text_of(nodes: &Vec<AdfNode>) -> (r: String)
    ensures
        r@ == children_text(nodes@),
    decreases nodes,
{
    let mut r = String::new();
    for i in 0..nodes.len()
        invariant
            r@ == children_text(nodes@.take(i as int)),
    {
        let t = extract_adf_text(&nodes[i]);
        assert(nodes@.take(i + 1).drop_last() =~= nodes@.take(i as int));
        assert(nodes@.take(i + 1).last() == nodes@[i as int]);
        if t.unicode_len() > 0 {
            if r.unicode_len() > 0 {
                push_char(&mut r, ' ');
            }
            r.append(t.as_str());
        }
        assert(r@ =~= children_text(nodes@.take(i + 1)));
    }
    assert(nodes@.take(nodes@.len() as int) =~= nodes@);
    r
}

/// `t` stands somewhere in `x`, its characters one after another.
pub open spec fn occurs_in(t: Seq<char>, x: Seq<char>) -> bool {
    exists|k: int| 0 <= k && k + t.len() <= x.len() && #[trigger] x.subrange(k, k + t.len()) == t
}

proof fn lemma_occurs_at(t: Seq<char>, x: Seq<char>, k: int)
    requires
        0 <= k,
        k + t.len() <= x.len(),
        x.subrange(k, k + t.len()) == t,
    ensures
        occurs_in(t, x),
{
}

proof fn lemma_occurs_trans(t: Seq<char>, u: Seq<char>, x: Seq<char>)
    requires
        occurs_in(t, u),
        occurs_in(u, x),
    ensures
        occurs_in(t, x),
{
    let a = choose|k: int| 0 <= k && k + t.len() <= u.len() && #[trigger] u.subrange(k, k + t.len()) == t;
    let b = choose|k: int| 0 <= k && k + u.len() <= x.len() && #[trigger] x.subrange(k, k + u.len()) == u;
    assert(x.subrange(b + a, b + a + t.len()) =~= t);
    lemma_occurs_at(t, x, b + a);
}

proof fn lemma_trim_start_suffix(x: Seq<char>)
    ensures
        occurs_in(trim_start(x), x),
    decreases x.len(),
{
    if x.len() > 0 && is_white_space(x[0]) {
        lemma_trim_start_suffix(x.drop_first());
        lemma_occurs_at(x.drop_first(), x, 1);
        assert(x.subrange(1, 1 + x.drop_first().len() as int) =~= x.drop_first());
        lemma_occurs_trans(trim_start(x), x.drop_first(), x);
    } else {
        assert(x.subrange(0, x.len() as int) =~= x);
        lemma_occurs_at(x, x, 0);
    }
}

proof fn lemma_trim_end_prefix(x: Seq<char>)
    ensures
        occurs_in(trim_end(x), x),
    decreases x.len(),
{
    if x.len() > 0 && is_white_space(x.last()) {
        lemma_trim_end_prefix(x.drop_last());
        assert(x.subrange(0, x.drop_last().len() as int) =~= x.drop_last());
        lemma_occurs_at(x.drop_last(), x, 0);
        lemma_occurs_trans(trim_end(x), x.drop_last(), x);
    } else {
        assert(x.subrange(0, x.len() as int) =~= x);
        lemma_occurs_at(x, x, 0);
    }
}

/// A text held in `x` whose ends are not white space is still held in `x`
/// once `x` is trimmed at its start.
proof fn lemma_trim_start_keeps(t: Seq<char>, x: Seq<char>, k: int)
    requires
        t.len() > 0,
        !is_white_space(t[0]),
        0 <= k,
        k + t.len() <= x.len(),
        x.subrange(k, k + t.len()) == t,
    ensures
        occurs_in(t, trim_start(x)),
    decreases x.len(),
{
    if x.len() > 0 && is_white_space(x[0]) {
        assert(x[k] == t[0]);
        assert(k > 0);
        assert(x.drop_first().subrange(k - 1, k - 1 + t.len()) =~= t);
        lemma_trim_start_keeps(t, x.drop_first(), k - 1);
    } else {
        lemma_occurs_at(t, x, k);
    }
}

proof fn lemma_trim_end_keeps(t: Seq<char>, x: Seq<char>, k: int)
    requires
        t.len() > 0,
        !is_white_space(t.last()),
        0 <= k,
        k + t.len() <= x.len(),
        x.subrange(k, k + t.len()) == t,
    ensures
        occurs_in(t, trim_end(x)),
    decreases x.len(),
{
    if x.len() > 0 && is_white_space(x.last()) {
        assert(x[k + t.len() - 1] == t.last());
        assert(k + t.len() < x.len());
        assert(x.drop_last().subrange(k, k + t.len()) =~= t);
        lemma_trim_end_keeps(t, x.drop_last(), k);
    } else {
        lemma_occurs_at(t, x, k);
    }
}

proof fn lemma_trim_keeps(t: Seq<char>, x: Seq<char>)
    requires
        t.len() > 0,
        !is_white_space(t[0]),
        !is_white_space(t.last()),
        occurs_in(t, x),
    ensures
        occurs_in(t, trim(x)),
{
    let k = choose|k: int| 0 <= k && k + t.len() <= x.len() && #[trigger] x.subrange(k, k + t.len()) == t;
    lemma_trim_start_keeps(t, x, k);
    let y = trim_start(x);
    let j = choose|j: int| 0 <= j && j + t.len() <= y.len() && #[trigger] y.subrange(j, j + t.len()) == t;
    lemma_trim_end_keeps(t, y, j);
}

/// The text of each node with any text is held in the joined texts of a
/// list of nodes.
proof fn lemma_children_text_holds(nodes: Seq<AdfNode>, i: int)
    requires
        0 <= i < nodes.len(),
        adf_text(nodes[i]).len() > 0,
    ensures
        occurs_in(adf_text(nodes[i]), children_text(nodes)),
    decreases nodes.len(),
{
    let prev = children_text(nodes.drop_last());
    let t = adf_text(nodes.last());
    let all = children_text(nodes);
    if i == nodes.len() - 1 {
        if prev.len() == 0 {
            assert(all.subrange(0, t.len() as int) =~= t);
            lemma_occurs_at(t, all, 0);
        } else {
            let k = prev.len() + 1;
            assert(all.subrange(k as int, (k + t.len()) as int) =~= t);
            lemma_occurs_at(t, all, k as int);
        }
    } else {
        assert(nodes.drop_last()[i] == nodes[i]);
        lemma_children_text_holds(nodes.drop_last(), i);
        if t.len() > 0 {
            assert(all.subrange(0, prev.len() as int) =~= prev);
            lemma_occurs_at(prev, all, 0);
            lemma_occurs_trans(adf_text(nodes[i]), prev, all);
        }
    }
}

/// The text of a node that is not a `"text"` node, whatever its type (a
/// document, a paragraph, a list, a list item, ...), is the texts of its
/// children that have any, joined by single spaces and trimmed.
pub proof fn lemma_container_text(
    node_type: Option<String>,
    text: Option<String>,
    content: Vec<AdfNode>,
)
    requires
        !(node_type matches Some(t) && t@ == "text"@),
    ensures
        adf_text(AdfNode::Object { node_type, text, content: Some(content) }) == trim(
            children_text(content@),
        ),
{
}

/// No text is lost under a node that is not a `"text"` node, whatever its
/// type: the text of each of its children, trimmed, stands in its own text.
/// Applied down a document, every `"text"` node reached through `"content"`
/// arrays gives its words to the document's text.
pub proof fn lemma_child_text_kept(
    node_type: Option<String>,
    text: Option<String>,
    content: Vec<AdfNode>,
    i: int,
)
    requires
        !(node_type matches Some(t) && t@ == "text"@),
        0 <= i < content@.len(),
        trim(adf_text(content@[i])).len() > 0,
    ensures
        occurs_in(
            trim(adf_text(content@[i])),
            adf_text(AdfNode::Object { node_type, text, content: Some(content) }),
        ),
{
    let x = adf_text(content@[i]);
    let t = trim(x);
    lemma_trim_start_suffix(x);
    lemma_trim_end_prefix(trim_start(x));
    lemma_occurs_trans(t, trim_start(x), x);
    lemma_children_text_holds(content@, i);
    let all = children_text(content@);
    lemma_occurs_trans(t, x, all);
    lemma_trim_stable(x);
    lemma_trim_keeps(t, all);
}


/// A `"text"` node's text is its `"text"` member, as it stands; empty where
/// it has none.
pub proof fn lemma_text_node_text(
    kind: String,
    text: Option<String>,
    content: Option<Vec<AdfNode>>,
)
    requires
        kind@ == "text"@,
    ensures
        adf_text(AdfNode::Object { node_type: Some(kind), text, content })
            == (match text {
            Some(t) => t@,
            None => Seq::<char>::empty(),
        }),
{
}

} // verus!

//! An HTML document tree as the parser gives it, and what is read from
//! it: the element tree with trimmed texts, the attributes found along a
//! path of tag names, and the character set that the page declares.

use crate::collections::vec_map::{map_insert, Entries, VecMap};
use crate::html::{texts_of, Node, NodeModel};
use crate::encoding::{gbk_decoded, gbk_to_utf8};
use crate::text::str_eq;
use html5ever::parse_document;
use html5ever::tendril::TendrilSink;
use markup5ever_rcdom::NodeData::{Element, Text};
use markup5ever_rcdom::{NodeData, RcDom};
use vstd::prelude::*;
use vstd::string::{StrSliceExecFns, StringExecFns};

verus! {

/// What a node of the document tree is.
pub enum DomData {
    /// The document itself, at the root.
    Document,
    /// An element with its tag name and its attributes in order.
    Element(String, Vec<(String, String)>),
    /// A run of text.
    Text(String),
    /// Anything else: a comment, a doctype, a processing instruction.
    Other,
}

/// A node of the document tree and the nodes below it.
pub struct DomNode {
    pub data: DomData,
    pub children: Vec<Box<DomNode>>,
}

/// A parsed HTML document.
pub struct Document {
    pub dom: DomNode,
}

/// The characters that have the Unicode property `White_Space`.
pub open spec fn white_space(c: char) -> bool {
    let u = c as u32;
    ||| 0x9 <= u <= 0xd
    ||| u == 0x20
    ||| u == 0x85
    ||| u == 0xa0
    ||| u == 0x1680
    ||| 0x2000 <= u <= 0x200a
    ||| u == 0x2028
    ||| u == 0x2029
    ||| u == 0x202f
    ||| u == 0x205f
    ||| u == 0x3000
}

/// Whether the character has the Unicode property `White_Space`, as
/// `char::is_whitespace` tells.
fn is_white_space(c: char) -> (r: bool)
    ensures
        r == white_space(c),
{
    let u = c as u32;
    (0x9 <= u && u <= 0xd) || u == 0x20 || u == 0x85 || u == 0xa0 || u == 0x1680 || (0x2000 <= u && u
        <= 0x200a) || u == 0x2028 || u == 0x2029 || u == 0x202f || u == 0x205f || u == 0x3000
}

/// The text without white space at its start.
pub open spec fn trim_start(s: Seq<char>) -> Seq<char>
    decreases s.len(),
{
    if s.len() > 0 && white_space(s[0]) {
        trim_start(s.drop_first())
    } else {
        s
    }
}

/// The text without white space at its end.
pub open spec fn trim_end(s: Seq<char>) -> Seq<char>
    decreases s.len(),
{
    if s.len() > 0 && white_space(s.last()) {
        trim_end(s.drop_last())
    } else {
        s
    }
}

/// The text without white space at either end.
pub open spec fn trimmed(s: Seq<char>) -> Seq<char> {
    trim_end(trim_start(s))
}

/// Dropping white space from the front of a suffix.
proof fn lemma_trim_start_skip(s: Seq<char>, i: int)
    requires
        0 <= i <= s.len(),
        forall|j: int| 0 <= j < i ==> white_space(#[trigger] s[j]),
    ensures
        trim_start(s) == trim_start(s.skip(i)),
    decreases i,
{
    if i > 0 {
        assert(s.drop_first().skip(i - 1) =~= s.skip(i));
        assert forall|j: int| 0 <= j < i - 1 implies white_space(#[trigger] s.drop_first()[j]) by {
            assert(s.drop_first()[j] == s[j + 1]);
        }
        lemma_trim_start_skip(s.drop_first(), i - 1);
    } else {
        assert(s.skip(0) =~= s);
    }
}

/// Dropping white space from the end of a prefix.
proof fn lemma_trim_end_take(s: Seq<char>, k: int)
    requires
        0 <= k <= s.len(),
        forall|j: int| k <= j < s.len() ==> white_space(#[trigger] s[j]),
    ensures
        trim_end(s) == trim_end(s.take(k)),
    decreases s.len() - k,
{
    if k < s.len() {
        assert(s.drop_last().take(k) =~= s.take(k));
        assert forall|j: int| k <= j < s.len() - 1 implies white_space(#[trigger] s.drop_last()[j]) by {
            assert(s.drop_last()[j] == s[j]);
        }
        lemma_trim_end_take(s.drop_last(), k);
    } else {
        assert(s.take(k) =~= s);
    }
}

/// Where `trim_start` cuts: everything before is white space, and what is
/// left is empty or starts with a character that is not.
proof fn lemma_trim_start_cut(s: Seq<char>) -> (i: int)
    ensures
        0 <= i <= s.len(),
        trim_start(s) == s.skip(i),
        forall|j: int| 0 <= j < i ==> white_space(#[trigger] s[j]),
        i < s.len() ==> !white_space(s[i]),
    decreases s.len(),
{
    if s.len() > 0 && white_space(s[0]) {
        let k = lemma_trim_start_cut(s.drop_first());
        assert(s.drop_first().skip(k) =~= s.skip(k + 1));
        assert forall|j: int| 0 <= j < k + 1 implies white_space(#[trigger] s[j]) by {
            if j > 0 {
                assert(s[j] == s.drop_first()[j - 1]);
            }
        }
        k + 1
    } else {
        assert(s.skip(0) =~= s);
        0
    }
}

/// Where `trim_end` cuts: everything after is white space, and what is
/// left is empty or ends with a character that is not.
proof fn lemma_trim_end_cut(s: Seq<char>) -> (k: int)
    ensures
        0 <= k <= s.len(),
        trim_end(s) == s.take(k),
        forall|j: int| k <= j < s.len() ==> white_space(#[trigger] s[j]),
        k > 0 ==> !white_space(s[k - 1]),
    decreases s.len(),
{
    if s.len() > 0 && white_space(s.last()) {
        let k = lemma_trim_end_cut(s.drop_last());
        assert(s.drop_last().take(k) =~= s.take(k));
        assert forall|j: int| k <= j < s.len() implies white_space(#[trigger] s[j]) by {
            if j < s.len() - 1 {
                assert(s[j] == s.drop_last()[j]);
            }
        }
        k
    } else {
        assert(s.take(s.len() as int) =~= s);
        s.len() as int
    }
}

/// Trimming keeps a run of the text: only white space is cut off, at
/// both ends, and what is kept neither starts nor ends with white space.
pub proof fn law_trim_cuts_only_white_space(s: Seq<char>)
    ensures
        exists|i: int, k: int|
            #![trigger s.subrange(i, k)]
            0 <= i <= k <= s.len() && trimmed(s) == s.subrange(i, k) && (forall|j: int|
                0 <= j < i ==> white_space(#[trigger] s[j])) && (forall|j: int|
                k <= j < s.len() ==> white_space(#[trigger] s[j])),
        trimmed(s).len() > 0 ==> !white_space(trimmed(s)[0]) && !white_space(trimmed(s).last()),
{
    let i = lemma_trim_start_cut(s);
    let t = s.skip(i);
    let k = lemma_trim_end_cut(t);
    assert(t.take(k) =~= s.subrange(i, i + k));
    assert forall|j: int| i + k <= j < s.len() implies white_space(#[trigger] s[j]) by {
        assert(s[j] == t[j - i]);
    }
    if k > 0 {
        assert(trimmed(s)[0] == s[i]);
        assert(trimmed(s).last() == t[k - 1]);
    }
    assert(trimmed(s) == s.subrange(i, i + k));
}

/// The text without white space at either end, as `str::trim` does it.
pub fn trim(s: &str) -> (r: &str)
    ensures
        r@ == trimmed(s@),
{
    let n = s.unicode_len();
    let mut a: usize = 0;
    while a < n && is_white_space(s.get_char(a))
        invariant
            n == s@.len(),
            a <= n,
            forall|j: int| 0 <= j < a ==> white_space(#[trigger] s@[j]),
        decreases n - a,
    {
        a = a + 1;
    }
    proof {
        lemma_trim_start_skip(s@, a as int);
    }
    let mut b: usize = n;
    while b > a && is_white_space(s.get_char(b - 1))
        invariant
            n == s@.len(),
            a <= b <= n,
            forall|j: int| b <= j < n ==> white_space(#[trigger] s@[j]),
        decreases b,
    {
        b = b - 1;
    }
    let ghost t = s@.skip(a as int);
    proof {
        assert forall|j: int| b - a <= j < t.len() implies white_space(#[trigger] t[j]) by {
            assert(t[j] == s@[a + j]);
        }
        lemma_trim_end_take(t, b - a);
        assert(t.take(b - a) =~= s@.subrange(a as int, b as int));
        if a < n {
            assert(!white_space(s@[a as int]));
            assert(trim_start(t) == t);
        } else {
            assert(t.len() == 0);
        }
    }
    s.substring_char(a, b)
}

/// The entries that inserting the attributes in order gives: a repeated
/// name keeps its first place and its last value.
pub open spec fn attr_entries(attrs: Seq<(Seq<char>, Seq<char>)>) -> Entries
    decreases attrs.len(),
{
    if attrs.len() == 0 {
        Seq::empty()
    } else {
        map_insert(attr_entries(attrs.drop_last()), attrs.last().0, attrs.last().1)
    }
}

/// The attributes as text pairs.
pub open spec fn attr_views(attrs: Seq<(String, String)>) -> Seq<(Seq<char>, Seq<char>)> {
    attrs.map_values(|kv: (String, String)| (kv.0@, kv.1@))
}

/// A document or an element: a node that becomes an element of the tree.
pub open spec fn is_node(d: DomNode) -> bool {
    d.data is Document || d.data is Element
}

/// The element tree that a document or element node gives: the document
/// is named `Document`; texts directly inside are trimmed and kept when
/// not empty; documents and elements directly inside become children;
/// everything else is left out.
pub open spec fn tree_of(d: DomNode) -> NodeModel
    decreases d,
{
    NodeModel {
        name: match d.data {
            DomData::Element(name, _) => name@,
            _ => "Document"@,
        },
        attrs: match d.data {
            DomData::Element(_, attrs) => attr_entries(attr_views(attrs@)),
            _ => Seq::empty(),
        },
        text: texts_in(d.children@),
        children: trees_in(d.children@),
    }
}

/// The trimmed, non-empty texts among the nodes, in order.
pub open spec fn texts_in(cs: Seq<Box<DomNode>>) -> Seq<Seq<char>>
    decreases cs.len(),
{
    if cs.len() == 0 {
        Seq::empty()
    } else {
        let rest = texts_in(cs.drop_last());
        match cs.last().data {
            DomData::Text(contents) => if trimmed(contents@).len() > 0 {
                rest.push(trimmed(contents@))
            } else {
                rest
            },
            _ => rest,
        }
    }
}

/// The element trees of the documents and elements among the nodes, in
/// order.
pub open spec fn trees_in(cs: Seq<Box<DomNode>>) -> Seq<NodeModel>
    decreases cs,
{
    if cs.len() == 0 {
        Seq::empty()
    } else {
        let rest = trees_in(cs.subrange(0, cs.len() - 1));
        if is_node(*cs[cs.len() - 1]) {
            rest.push(tree_of(*cs[cs.len() - 1]))
        } else {
            rest
        }
    }
}

/// The element tree of a document or element node.
pub fn walk(handle: &DomNode) -> (r: Node)
    requires
        is_node(*handle),
    ensures
        r@ == tree_of(*handle),
    decreases handle,
{
    let mut attrs = VecMap::new();
    let name = match &handle.data {
        DomData::Element(name, list) => {
            let m = list.len();
            let mut j: usize = 0;
            proof {
                assert(attr_views(list@).subrange(0, 0) =~= Seq::<(Seq<char>, Seq<char>)>::empty());
            }
            while j < m
                invariant
                    m == list@.len(),
                    j <= m,
                    attrs@ == attr_entries(attr_views(list@).subrange(0, j as int)),
                decreases m - j,
            {
                proof {
                    let a = attr_views(list@).subrange(0, j + 1);
                    assert(a.drop_last() =~= attr_views(list@).subrange(0, j as int));
                }
                attrs.insert(list[j].0.as_str(), list[j].1.as_str());
                j = j + 1;
            }
            proof {
                assert(attr_views(list@).subrange(0, m as int) =~= attr_views(list@));
            }
            name.clone()
        },
        _ => {
            proof {
                reveal_strlit("Document");
            }
            String::from_str("Document")
        },
    };
    let mut text: Vec<String> = Vec::new();
    let mut children: Vec<Box<Node>> = Vec::new();
    let n = handle.children.len();
    let mut i: usize = 0;
    proof {
        assert(handle.children@.subrange(0, 0) =~= Seq::<Box<DomNode>>::empty());
        assert(texts_of(text@) =~= Seq::<Seq<char>>::empty());
    }
    while i < n
        invariant
            n == handle.children@.len(),
            i <= n,
            texts_of(text@) == texts_in(handle.children@.subrange(0, i as int)),
            crate::html::models_of(children@) == trees_in(handle.children@.subrange(0, i as int)),
        decreases n - i,
    {
        let child: &DomNode = &handle.children[i];
        let ghost cs = handle.children@.subrange(0, i + 1);
        proof {
            assert(cs.drop_last() =~= handle.children@.subrange(0, i as int));
            assert(cs.subrange(0, cs.len() - 1) =~= handle.children@.subrange(0, i as int));
            assert(*cs[cs.len() - 1] == *child);
        }
        match &child.data {
            DomData::Document | DomData::Element(..) => {
                let c = walk(child);
                let ghost before = children@;
                children.push(Box::new(c));
                proof {
                    assert(children@.subrange(0, children@.len() - 1) =~= before);
                }
            },
            DomData::Text(contents) => {
                let t = trim(contents.as_str());
                if t.unicode_len() > 0 {
                    let ghost before = text@;
                    text.push(t.to_owned());
                    proof {
                        assert(texts_of(text@) =~= texts_of(before).push(t@));
                    }
                }
            },
            DomData::Other => {},
        }
        i = i + 1;
    }
    proof {
        assert(handle.children@.subrange(0, n as int) =~= handle.children@);
    }
    Node { name, attrs, text, children }
}

/// The texts of a path of tag names.
pub open spec fn path_views(p: Seq<&str>) -> Seq<Seq<char>> {
    p.map_values(|s: &str| s@)
}

/// The attributes that a search along `path` meets, in order: the first
/// name of the path must be empty at the document or the element's tag
/// name; at the last name the element's attributes are met, before it the
/// search goes on in each child with the rest of the path.
pub open spec fn attr_visits(d: DomNode, path: Seq<Seq<char>>) -> Seq<(Seq<char>, Seq<char>)>
    decreases d,
{
    if path.len() == 0 {
        Seq::empty()
    } else {
        match d.data {
            DomData::Document => if path[0].len() == 0 {
                visits_in(d.children@, path.drop_first())
            } else {
                Seq::empty()
            },
            DomData::Element(name, attrs) => if path[0] != name@ {
                Seq::empty()
            } else if path.len() == 1 {
                attr_views(attrs@)
            } else {
                visits_in(d.children@, path.drop_first())
            },
            _ => Seq::empty(),
        }
    }
}

/// The attributes that the search meets in each of the nodes, in order.
pub open spec fn visits_in(cs: Seq<Box<DomNode>>, path: Seq<Seq<char>>) -> Seq<(Seq<char>, Seq<char>)>
    decreases cs,
{
    if cs.len() == 0 {
        Seq::empty()
    } else {
        visits_in(cs.subrange(0, cs.len() - 1), path) + attr_visits(*cs[cs.len() - 1], path)
    }
}

/// The attribute pairs as text.
pub open spec fn pair_views(s: Seq<(String, String)>) -> Seq<(Seq<char>, Seq<char>)> {
    s.map_values(|kv: (String, String)| (kv.0@, kv.1@))
}

/// `f` may answer `b` when asked about the attribute `kv`.
pub open spec fn pair_answer<F: FnOnce(&str, &str) -> bool>(
    f: F,
    kv: (Seq<char>, Seq<char>),
    b: bool,
) -> bool {
    exists|k: &str, v: &str| k@ == kv.0 && v@ == kv.1 && #[trigger] call_ensures(f, (k, v), b)
}

impl DomNode {
    /// Appends the attributes that a search along `path[depth..]` meets.
    fn collect_visits(&self, path: &[&str], depth: usize, out: &mut Vec<(String, String)>)
        requires
            depth <= path@.len(),
        ensures
            pair_views(final(out)@) == pair_views(old(out)@) + attr_visits(
                *self,
                path_views(path@).skip(depth as int),
            ),
        decreases self,
    {
        let ghost p = path_views(path@).skip(depth as int);
        let ghost start = pair_views(out@);
        if depth == path.len() {
            assert(pair_views(out@) =~= start + Seq::<(Seq<char>, Seq<char>)>::empty());
            return;
        }
        assert(p[0] == path@[depth as int]@);
        assert(p.drop_first() =~= path_views(path@).skip(depth + 1));
        let node_name: &str = path[depth];
        let go_down: bool = match &self.data {
            DomData::Document => {
                proof {
                    reveal_strlit("");
                }
                let b = str_eq(node_name, "");
                assert(""@ =~= Seq::<char>::empty());
                assert(node_name@ == p[0]);
                assert(p[0].len() == 0 ==> p[0] =~= Seq::<char>::empty());
                assert(b == (p[0].len() == 0));
                b
            },
            DomData::Element(name, attrs) => {
                if !str_eq(node_name, name.as_str()) {
                    assert(attr_visits(*self, p).len() == 0);
                    false
                } else if depth + 1 == path.len() {
                    let m = attrs.len();
                    let mut j: usize = 0;
                    while j < m
                        invariant
                            m == attrs@.len(),
                            j <= m,
                            pair_views(out@) == start + attr_views(attrs@).subrange(0, j as int),
                        decreases m - j,
                    {
                        let ghost before = pair_views(out@);
                        let k = attrs[j].0.clone();
                        let v = attrs[j].1.clone();
                        out.push((k, v));
                        proof {
                            assert(pair_views(out@) =~= before.push((k@, v@)));
                            assert(attr_views(attrs@).subrange(0, j + 1) =~= attr_views(
                                attrs@,
                            ).subrange(0, j as int).push(attr_views(attrs@)[j as int]));
                        }
                        j = j + 1;
                    }
                    proof {
                        assert(attr_views(attrs@).subrange(0, m as int) =~= attr_views(attrs@));
                    }
                    return;
                } else {
                    assert(attr_visits(*self, p) == visits_in(self.children@, p.drop_first()));
                    true
                }
            },
            _ => false,
        };
        proof {
            if self.data is Document {
                if go_down {
                    assert(attr_visits(*self, p) == visits_in(self.children@, p.drop_first()));
                } else {
                    assert(attr_visits(*self, p).len() == 0);
                }
            }
        }
        if !go_down {
            assert(pair_views(out@) =~= start + Seq::<(Seq<char>, Seq<char>)>::empty());
            return;
        }
        let n = self.children.len();
        let plen = path.len();
        let mut i: usize = 0;
        proof {
            assert(self.children@.subrange(0, 0) =~= Seq::<Box<DomNode>>::empty());
            assert(pair_views(out@) =~= start + visits_in(
                self.children@.subrange(0, 0),
                p.drop_first(),
            ));
        }
        while i < n
            invariant
                n == self.children@.len(),
                i <= n,
                plen == path@.len(),
                depth < plen,
                p.drop_first() == path_views(path@).skip(depth + 1),
                attr_visits(*self, p) == visits_in(self.children@, p.drop_first()),
                pair_views(out@) == start + visits_in(
                    self.children@.subrange(0, i as int),
                    p.drop_first(),
                ),
            decreases n - i,
        {
            let child: &DomNode = &self.children[i];
            child.collect_visits(path, depth + 1, out);
            proof {
                let cs = self.children@.subrange(0, i + 1);
                assert(cs.subrange(0, cs.len() - 1) =~= self.children@.subrange(0, i as int));
                assert(*cs[cs.len() - 1] == *child);
                assert(start + visits_in(cs, p.drop_first()) =~= start + visits_in(
                    self.children@.subrange(0, i as int),
                    p.drop_first(),
                ) + attr_visits(*child, p.drop_first()));
            }
            i = i + 1;
        }
        proof {
            assert(self.children@.subrange(0, n as int) =~= self.children@);
        }
    }
}

/// Goes along `path` from `node` and asks `fun` about each attribute met
/// there, in order, until it answers `true`; returns whether it did.
pub fn visit_attrs<F: FnMut(&str, &str) -> bool>(node: &DomNode, path: &[&str], fun: &mut F) -> (r: bool)
    requires
        forall|k: &str, v: &str| call_requires(*old(fun), (k, v)),
    ensures
        *final(fun) == *old(fun),
        r ==> exists|i: int|
            0 <= i < attr_visits(*node, path_views(path@)).len() && (forall|j: int|
                0 <= j < i ==> pair_answer(
                    *old(fun),
                    #[trigger] attr_visits(*node, path_views(path@))[j],
                    false,
                )) && pair_answer(*old(fun), attr_visits(*node, path_views(path@))[i], true),
        !r ==> forall|j: int|
            0 <= j < attr_visits(*node, path_views(path@)).len() ==> pair_answer(
                *old(fun),
                #[trigger] attr_visits(*node, path_views(path@))[j],
                false,
            ),
{
    let mut visits: Vec<(String, String)> = Vec::new();
    proof {
        assert(pair_views(visits@) =~= Seq::<(Seq<char>, Seq<char>)>::empty());
        assert(path_views(path@).skip(0) =~= path_views(path@));
    }
    node.collect_visits(path, 0, &mut visits);
    let ghost vs = attr_visits(*node, path_views(path@));
    assert(pair_views(visits@) =~= vs);
    let ghost f0 = *fun;
    let n = visits.len();
    let mut i: usize = 0;
    while i < n
        invariant
            n == visits@.len(),
            pair_views(visits@) == vs,
            vs == attr_visits(*node, path_views(path@)),
            i <= n,
            *fun == f0,
            f0 == *old(fun),
            forall|k: &str, v: &str| call_requires(f0, (k, v)),
            forall|j: int| 0 <= j < i ==> pair_answer(f0, #[trigger] vs[j], false),
        decreases n - i,
    {
        let k: &str = visits[i].0.as_str();
        let v: &str = visits[i].1.as_str();
        assert(vs[i as int] == (k@, v@));
        let b = fun(k, v);
        if b {
            assert(pair_answer(f0, vs[i as int], true));
            assert(0 <= i < attr_visits(*node, path_views(path@)).len() && (forall|j: int|
                0 <= j < i ==> pair_answer(
                    *old(fun),
                    #[trigger] attr_visits(*node, path_views(path@))[j],
                    false,
                )) && pair_answer(*old(fun), attr_visits(*node, path_views(path@))[i as int], true));
            return true;
        }
        assert(pair_answer(f0, vs[i as int], false));
        i = i + 1;
    }
    false
}

/// What the regular expression `pattern` captures in its first group at
/// its first match in `text` (`regex::Regex`), or `None` when the pattern
/// does not compile, does not match or leaves the group unset.
pub uninterp spec fn regex_first_capture(pattern: Seq<char>, text: Seq<char>) -> Option<Seq<char>>;

/// `Regex::new(pattern)` and `captures(text)` of the `regex` crate, and the
/// text of the first group. The contract only names the result: it is
/// `regex_first_capture` of the pattern and the text.
#[verifier::external_body]
fn first_capture(pattern: &str, text: &str) -> (r: Option<String>)
    ensures
        match r {
            Some(c) => regex_first_capture(pattern@, text@) == Some(c@),
            None => regex_first_capture(pattern@, text@) is None,
        },
{
    let re = match regex::Regex::new(pattern) {
        Ok(re) => re,
        Err(_) => return None,
    };
    match re.captures(text) {
        Some(caps) => match caps.get(1) {
            Some(m) => Some(m.as_str().to_owned()),
            None => None,
        },
        None => None,
    }
}

/// The text in upper case as Unicode maps it (`str::to_uppercase`).
pub uninterp spec fn upper_case(s: Seq<char>) -> Seq<char>;

/// `str::to_uppercase` from the standard library. The contract only names
/// the result: it is `upper_case` of the text.
#[verifier::external_body]
fn to_upper(s: &str) -> (r: String)
    ensures
        r@ == upper_case(s@),
{
    s.to_uppercase()
}

/// The pattern that finds the character set in a `content` attribute.
pub open spec fn charset_pattern() -> Seq<char> {
    "charset=(\\w+)"@
}

/// The path of tag names to the `meta` elements of a page's head.
pub open spec fn charset_path() -> Seq<Seq<char>> {
    seq![""@, "html"@, "head"@, "meta"@]
}

/// The character set that the first `content` attribute with a
/// `charset=` declares, in upper case.
pub open spec fn charset_from(vs: Seq<(Seq<char>, Seq<char>)>) -> Option<Seq<char>>
    decreases vs.len(),
{
    if vs.len() == 0 {
        None
    } else if vs[0].0 == "content"@ && regex_first_capture(charset_pattern(), vs[0].1) is Some {
        Some(upper_case(regex_first_capture(charset_pattern(), vs[0].1).unwrap()))
    } else {
        charset_from(vs.drop_first())
    }
}

/// The first `content` attribute that declares a character set is the
/// one read, whatever attributes come before it; where none declares one
/// there is none.
proof fn lemma_charset_from(vs: Seq<(Seq<char>, Seq<char>)>)
    ensures
        (exists|i: int|
            0 <= i < vs.len() && (#[trigger] vs[i]).0 == "content"@ && regex_first_capture(
                charset_pattern(),
                vs[i].1,
            ) is Some) ==> charset_from(vs) is Some,
        forall|i: int|
            0 <= i < vs.len() && (#[trigger] vs[i]).0 == "content"@ && regex_first_capture(
                charset_pattern(),
                vs[i].1,
            ) is Some && (forall|j: int|
                0 <= j < i ==> !((#[trigger] vs[j]).0 == "content"@ && regex_first_capture(
                    charset_pattern(),
                    vs[j].1,
                ) is Some)) ==> charset_from(vs) == Some(
                upper_case(regex_first_capture(charset_pattern(), vs[i].1).unwrap()),
            ),
        charset_from(vs) is Some ==> exists|i: int|
            0 <= i < vs.len() && (#[trigger] vs[i]).0 == "content"@ && regex_first_capture(
                charset_pattern(),
                vs[i].1,
            ) is Some && charset_from(vs) == Some(
                upper_case(regex_first_capture(charset_pattern(), vs[i].1).unwrap()),
            ),
    decreases vs.len(),
{
    if vs.len() > 0 {
        let t = vs.drop_first();
        lemma_charset_from(t);
        let first = vs[0].0 == "content"@ && regex_first_capture(charset_pattern(), vs[0].1) is Some;
        if !first {
            assert forall|i: int|
                0 <= i < vs.len() && (#[trigger] vs[i]).0 == "content"@ && regex_first_capture(
                    charset_pattern(),
                    vs[i].1,
                ) is Some implies charset_from(vs) is Some by {
                assert(i != 0);
                assert(t[i - 1] == vs[i]);
            }
            assert forall|i: int|
                0 <= i < vs.len() && (#[trigger] vs[i]).0 == "content"@ && regex_first_capture(
                    charset_pattern(),
                    vs[i].1,
                ) is Some && (forall|j: int|
                    0 <= j < i ==> !((#[trigger] vs[j]).0 == "content"@ && regex_first_capture(
                        charset_pattern(),
                        vs[j].1,
                    ) is Some)) implies charset_from(vs) == Some(
                upper_case(regex_first_capture(charset_pattern(), vs[i].1).unwrap()),
            ) by {
                assert(t[i - 1] == vs[i]);
                assert forall|j: int| 0 <= j < i - 1 implies !((#[trigger] t[j]).0 == "content"@
                    && regex_first_capture(charset_pattern(), t[j].1) is Some) by {
                    assert(t[j] == vs[j + 1]);
                }
            }
            if charset_from(vs) is Some {
                let k = choose|k: int|
                    0 <= k < t.len() && (#[trigger] t[k]).0 == "content"@ && regex_first_capture(
                        charset_pattern(),
                        t[k].1,
                    ) is Some && charset_from(t) == Some(
                        upper_case(regex_first_capture(charset_pattern(), t[k].1).unwrap()),
                    );
                assert(vs[k + 1] == t[k]);
            }
        } else {
            assert forall|i: int|
                0 <= i < vs.len() && (#[trigger] vs[i]).0 == "content"@ && regex_first_capture(
                    charset_pattern(),
                    vs[i].1,
                ) is Some && (forall|j: int|
                    0 <= j < i ==> !((#[trigger] vs[j]).0 == "content"@ && regex_first_capture(
                        charset_pattern(),
                        vs[j].1,
                    ) is Some)) implies charset_from(vs) == Some(
                upper_case(regex_first_capture(charset_pattern(), vs[i].1).unwrap()),
            ) by {
                if i > 0 {
                    assert(!((vs[0]).0 == "content"@ && regex_first_capture(charset_pattern(), vs[0].1) is Some));
                }
            }
        }
    }
}

/// The character set a page declares is read from the first `content`
/// attribute of the `meta` elements in its head that declares one, in
/// upper case: attributes before it that declare none do not end the
/// search, and a page where some such attribute declares one has a
/// character set.
pub proof fn law_charset_first_declaration(d: DomNode)
    ensures
        (exists|i: int|
            0 <= i < attr_visits(d, charset_path()).len() && (#[trigger] attr_visits(d, charset_path())[i]).0
                == "content"@ && regex_first_capture(charset_pattern(), attr_visits(d, charset_path())[i].1)
                is Some) ==> charset_of(d) is Some,
        forall|i: int|
            0 <= i < attr_visits(d, charset_path()).len() && (#[trigger] attr_visits(d, charset_path())[i]).0
                == "content"@ && regex_first_capture(charset_pattern(), attr_visits(d, charset_path())[i].1)
                is Some && (forall|j: int|
                0 <= j < i ==> !((#[trigger] attr_visits(d, charset_path())[j]).0 == "content"@
                    && regex_first_capture(charset_pattern(), attr_visits(d, charset_path())[j].1) is Some))
                ==> charset_of(d) == Some(
                upper_case(regex_first_capture(charset_pattern(), attr_visits(d, charset_path())[i].1).unwrap()),
            ),
        charset_of(d) is Some ==> exists|i: int|
            0 <= i < attr_visits(d, charset_path()).len() && (#[trigger] attr_visits(d, charset_path())[i]).0
                == "content"@ && regex_first_capture(charset_pattern(), attr_visits(d, charset_path())[i].1)
                is Some && charset_of(d) == Some(
                upper_case(regex_first_capture(charset_pattern(), attr_visits(d, charset_path())[i].1).unwrap()),
            ),
{
    lemma_charset_from(attr_visits(d, charset_path()));
}

/// The character set that a document tree declares in its head.
pub open spec fn charset_of(d: DomNode) -> Option<Seq<char>> {
    charset_from(attr_visits(d, charset_path()))
}

/// The character set that the document's `meta` elements declare in a
/// `content` attribute (`charset=...`), in upper case: the first one, in
/// document order.
pub fn find_charset(handle: &DomNode) -> (r: Option<String>)
    ensures
        match r {
            Some(c) => charset_of(*handle) == Some(c@),
            None => charset_of(*handle) is None,
        },
{
    let path: Vec<&str> = vec!["", "html", "head", "meta"];
    assert(path_views(path@) =~= charset_path());
    let mut visits: Vec<(String, String)> = Vec::new();
    proof {
        assert(pair_views(visits@) =~= Seq::<(Seq<char>, Seq<char>)>::empty());
        assert(path_views(path@).skip(0) =~= path_views(path@));
    }
    handle.collect_visits(path.as_slice(), 0, &mut visits);
    let ghost vs = attr_visits(*handle, charset_path());
    assert(pair_views(visits@) =~= vs);
    let n = visits.len();
    let mut i: usize = 0;
    proof {
        assert(vs.skip(0) =~= vs);
    }
    while i < n
        invariant
            n == visits@.len(),
            pair_views(visits@) == vs,
            vs == attr_visits(*handle, charset_path()),
            i <= n,
            charset_from(vs) == charset_from(vs.skip(i as int)),
        decreases n - i,
    {
        let name: &str = visits[i].0.as_str();
        let value: &str = visits[i].1.as_str();
        let ghost rest = vs.skip(i as int);
        assert(rest[0] == (name@, value@));
        assert(rest.drop_first() =~= vs.skip(i + 1));
        if str_eq(name, "content") {
            match first_capture("charset=(\\w+)", value) {
                Some(cap) => {
                    let up = to_upper(cap.as_str());
                    return Some(up);
                },
                None => {},
            }
        }
        i = i + 1;
    }
    proof {
        assert(vs.skip(n as int).len() == 0);
    }
    None
}

/// A document tree as a mathematical value.
pub struct DomModel {
    pub data: DomData,
    pub children: Seq<DomModel>,
}

/// The model of a node and of everything below it.
pub open spec fn dom_model(d: DomNode) -> DomModel
    decreases d,
{
    DomModel { data: d.data, children: dom_models(d.children@) }
}

/// The models of a list of nodes.
pub open spec fn dom_models(cs: Seq<Box<DomNode>>) -> Seq<DomModel>
    decreases cs,
{
    if cs.len() == 0 {
        Seq::empty()
    } else {
        dom_models(cs.subrange(0, cs.len() - 1)).push(dom_model(*cs[cs.len() - 1]))
    }
}

/// `attr_visits` on the model of a tree.
pub open spec fn model_visits(m: DomModel, path: Seq<Seq<char>>) -> Seq<(Seq<char>, Seq<char>)>
    decreases m,
{
    if path.len() == 0 {
        Seq::empty()
    } else {
        match m.data {
            DomData::Document => if path[0].len() == 0 {
                model_visits_in(m.children, path.drop_first())
            } else {
                Seq::empty()
            },
            DomData::Element(name, attrs) => if path[0] != name@ {
                Seq::empty()
            } else if path.len() == 1 {
                attr_views(attrs@)
            } else {
                model_visits_in(m.children, path.drop_first())
            },
            _ => Seq::empty(),
        }
    }
}

/// `visits_in` on models.
pub open spec fn model_visits_in(cs: Seq<DomModel>, path: Seq<Seq<char>>) -> Seq<(Seq<char>, Seq<char>)>
    decreases cs,
{
    if cs.len() == 0 {
        Seq::empty()
    } else {
        model_visits_in(cs.subrange(0, cs.len() - 1), path) + model_visits(cs[cs.len() - 1], path)
    }
}

/// The character set that the model of a document declares.
pub open spec fn model_charset(m: DomModel) -> Option<Seq<char>> {
    charset_from(model_visits(m, charset_path()))
}

/// A search along a path meets the same attributes in a tree and in its
/// model.
pub proof fn lemma_visits_model(d: DomNode, path: Seq<Seq<char>>)
    ensures
        attr_visits(d, path) == model_visits(dom_model(d), path),
    decreases d,
{
    lemma_visits_in_model(d.children@, path.drop_first());
}

/// The same, for a list of trees.
pub proof fn lemma_visits_in_model(cs: Seq<Box<DomNode>>, path: Seq<Seq<char>>)
    ensures
        visits_in(cs, path) == model_visits_in(dom_models(cs), path),
    decreases cs,
{
    if cs.len() > 0 {
        let t = cs.subrange(0, cs.len() - 1);
        lemma_visits_in_model(t, path);
        lemma_visits_model(*cs[cs.len() - 1], path);
        let ms = dom_models(cs);
        assert(ms.subrange(0, ms.len() - 1) =~= dom_models(t));
    }
}

/// A stack of encoded nodes, the next one on top (at the end): each
/// node's data with its number of children. From the top down, a tree is
/// its root, then the trees of its children, the last child first.
pub type NodeStack = Seq<(DomData, usize)>;

/// The tree encoded on top of the stack, and the stack below it.
pub open spec fn pop_tree(s: NodeStack) -> Option<(DomModel, NodeStack)>
    decreases s.len(), 0nat,
{
    if s.len() == 0 {
        None
    } else {
        match pop_forest(s.drop_last(), s.last().1 as nat) {
            Some((kids, rest)) => Some((DomModel { data: s.last().0, children: kids }, rest)),
            None => None,
        }
    }
}

/// The `k` trees encoded on top of the stack, and the stack below them;
/// the tree on top is the last of them.
pub open spec fn pop_forest(s: NodeStack, k: nat) -> Option<(Seq<DomModel>, NodeStack)>
    decreases s.len(), k + 1,
{
    if k == 0 {
        Some((Seq::empty(), s))
    } else {
        match pop_tree(s) {
            Some((t, rest)) => if rest.len() < s.len() {
                match pop_forest(rest, (k - 1) as nat) {
                    Some((ts, r)) => Some((ts.push(t), r)),
                    None => None,
                }
            } else {
                None
            },
            None => None,
        }
    }
}

/// Trees `tail` put after those that a decoding gives.
pub open spec fn append_trees(o: Option<(Seq<DomModel>, NodeStack)>, tail: Seq<DomModel>) -> Option<
    (Seq<DomModel>, NodeStack),
> {
    match o {
        Some((ts, r)) => Some((ts + tail, r)),
        None => None,
    }
}

/// The nodes, each before the nodes below it and the children of each
/// taken last first, encode one whole tree whose root is a document.
pub open spec fn encodes_document(nodes: Seq<(DomData, usize)>) -> bool {
    pop_tree(nodes.reverse()) matches Some((t, rest)) && rest.len() == 0 && t.data is Document
}

/// The nodes of html5ever's document tree for UTF-8 `bytes`, each with
/// its number of children: each node before the nodes below it, the
/// children of each taken last first.
pub uninterp spec fn html_nodes(bytes: Seq<u8>) -> Seq<(DomData, usize)>;

/// The document tree that html5ever builds for UTF-8 `bytes`.
pub open spec fn html_tree(bytes: Seq<u8>) -> DomModel {
    pop_tree(html_nodes(bytes).reverse()).unwrap().0
}

/// `html5ever::parse_document` into an `RcDom` on the bytes (read as
/// UTF-8, malformed sequences replaced), its tree copied node for node:
/// each node before the nodes below it, the children of each taken last
/// first. The contract names the result `html_nodes`; it states that the
/// copy encodes one whole tree whose root is the document, as the
/// traversal below makes it.
#[verifier::external_body]
fn html_preorder(data: &[u8]) -> (r: Vec<(DomData, usize)>)
    ensures
        r@ == html_nodes(data@),
        encodes_document(r@),
{
    let mut out = vec![];
    let mut stack = vec![parse_document(RcDom::default(), Default::default()).from_utf8().one(data).document];
    while let Some(h) = stack.pop() {
        let kids = h.children.take();
        out.push((match &h.data {
            NodeData::Document => DomData::Document,
            Element { name, attrs, .. } => DomData::Element(name.local.to_string(), attrs.borrow().iter().map(|a| (a.name.local.to_string(), a.value.to_string())).collect()),
            Text { contents } => DomData::Text(contents.borrow().to_string()),
            _ => DomData::Other,
        }, kids.len()));
        stack.extend(kids);
    }
    out
}

/// The elements of `v` in reverse order.
fn reversed<T>(v: Vec<T>) -> (r: Vec<T>)
    ensures
        r@ == v@.reverse(),
{
    let mut v = v;
    let ghost orig = v@;
    let mut r: Vec<T> = Vec::new();
    proof {
        assert(orig.skip(orig.len() as int).reverse() =~= Seq::<T>::empty());
        assert(orig.take(orig.len() as int) =~= orig);
    }
    while v.len() > 0
        invariant
            v@ == orig.take(v@.len() as int),
            v@.len() <= orig.len(),
            r@ == orig.skip(v@.len() as int).reverse(),
        decreases v@.len(),
    {
        let ghost n = v@.len();
        let x = v.pop().unwrap();
        proof {
            assert(x == orig[n - 1]);
            assert(orig.skip(n - 1) =~= seq![x] + orig.skip(n as int));
            assert(orig.skip(n - 1).reverse() =~= orig.skip(n as int).reverse().push(x));
            assert(v@ =~= orig.take(n - 1));
        }
        r.push(x);
    }
    proof {
        assert(orig.skip(0) =~= orig);
    }
    r
}

/// Putting a node in front of a list puts its model in front.
proof fn lemma_models_cons(b: Box<DomNode>, s: Seq<Box<DomNode>>)
    ensures
        dom_models(seq![b] + s) == seq![dom_model(*b)] + dom_models(s),
    decreases s.len(),
{
    let c = seq![b] + s;
    if s.len() == 0 {
        assert(c.subrange(0, 0) =~= Seq::<Box<DomNode>>::empty());
        assert(c[0] == b);
        assert(dom_models(Seq::<Box<DomNode>>::empty()) =~= Seq::<DomModel>::empty());
        assert(dom_models(s) =~= Seq::<DomModel>::empty());
        assert(Seq::<DomModel>::empty().push(dom_model(*b)) =~= seq![dom_model(*b)] + Seq::<DomModel>::empty());
    } else {
        let t = s.subrange(0, s.len() - 1);
        lemma_models_cons(b, t);
        assert(c.subrange(0, c.len() - 1) =~= seq![b] + t);
        assert(c[c.len() - 1] == s[s.len() - 1]);
        assert(seq![dom_model(*b)] + dom_models(s) =~= (seq![dom_model(*b)] + dom_models(t)).push(
            dom_model(*s[s.len() - 1]),
        ));
    }
}

/// Takes the tree encoded on top of the stack off it.
fn pop_tree_exec(stack: &mut Vec<(DomData, usize)>) -> (r: Option<DomNode>)
    ensures
        match r {
            Some(t) => pop_tree(old(stack)@) == Some((dom_model(t), final(stack)@)) && final(stack)@.len()
                < old(stack)@.len(),
            None => pop_tree(old(stack)@) is None,
        },
    decreases old(stack)@.len(),
{
    let ghost orig = stack@;
    match stack.pop() {
        None => None,
        Some((data, k)) => {
            let mut kids: Vec<Box<DomNode>> = Vec::new();
            let mut j: usize = 0;
            proof {
                assert(orig.drop_last() == stack@);
                assert(dom_models(kids@) =~= Seq::<DomModel>::empty());
                assert(match pop_forest(stack@, k as nat) {
                    Some((ts, r)) => ts + Seq::<DomModel>::empty() == ts,
                    None => true,
                }) by {
                    match pop_forest(stack@, k as nat) {
                        Some((ts, r)) => { assert(ts + Seq::<DomModel>::empty() =~= ts); },
                        None => {},
                    }
                }
            }
            while j < k
                invariant
                    j <= k,
                    orig == old(stack)@,
                    orig.len() > 0,
                    stack@.len() < orig.len(),
                    orig.last() == (data, k),
                    pop_forest(orig.drop_last(), k as nat) == append_trees(
                        pop_forest(stack@, (k - j) as nat),
                        dom_models(kids@),
                    ),
                decreases k - j,
            {
                let ghost before = stack@;
                match pop_tree_exec(stack) {
                    Some(t) => {
                        let b = Box::new(t);
                        proof {
                            let f = pop_forest(stack@, (k - j - 1) as nat);
                            lemma_models_cons(b, kids@);
                            match f {
                                Some((ts, r)) => {
                                    assert(ts.push(dom_model(t)) + dom_models(kids@) =~= ts + (seq![
                                        dom_model(t),
                                    ] + dom_models(kids@)));
                                },
                                None => {},
                            }
                        }
                        let ghost ks = kids@;
                        kids.insert(0, b);
                        proof {
                            assert(kids@ =~= seq![b] + ks);
                        }
                    },
                    None => {
                        proof {
                            assert(pop_forest(before, (k - j) as nat) is None);
                            assert(pop_forest(orig.drop_last(), k as nat) is None);
                            assert(pop_tree(orig) is None);
                        }
                        return None;
                    },
                }
                j = j + 1;
            }
            proof {
                assert(Seq::<DomModel>::empty() + dom_models(kids@) =~= dom_models(kids@));
            }
            Some(DomNode { data, children: kids })
        },
    }
}

/// The document tree that html5ever builds for UTF-8 bytes.
pub fn parse_html(data: &[u8]) -> (r: DomNode)
    ensures
        dom_model(r) == html_tree(data@),
        r.data is Document,
{
    let nodes = html_preorder(data);
    let mut stack = reversed(nodes);
    match pop_tree_exec(&mut stack) {
        Some(t) => t,
        None => {
            proof {
                assert(false);
            }
            DomNode { data: DomData::Document, children: Vec::new() }
        },
    }
}

impl Document {
    /// Parses a page as UTF-8; a page that declares the GBK character set
    /// is decoded from GBK and parsed again.
    pub fn parse(data: &[u8]) -> (r: Document)
        ensures
            dom_model(r.dom) == if model_charset(html_tree(data@)) == Some("GBK"@) {
                html_tree(gbk_decoded(data@))
            } else {
                html_tree(data@)
            },
    {
        let doc = Document { dom: parse_html(data) };
        proof {
            lemma_visits_model(doc.dom, charset_path());
        }
        if doc.needs_gbk() {
            let utf8 = gbk_to_utf8(data).unwrap();
            return Document { dom: parse_html(utf8.as_slice()) };
        }
        doc
    }

    /// The character set that the document declares, in upper case.
    pub fn get_charset(&self) -> (r: Option<String>)
        ensures
            match r {
                Some(c) => charset_of(self.dom) == Some(c@),
                None => charset_of(self.dom) is None,
            },
    {
        find_charset(&self.dom)
    }

    /// Whether the document declares the GBK character set, so that its
    /// bytes have to be decoded from GBK and parsed again.
    pub fn needs_gbk(&self) -> (r: bool)
        ensures
            r == (charset_of(self.dom) == Some("GBK"@)),
    {
        match self.get_charset() {
            Some(c) => str_eq(c.as_str(), "GBK"),
            None => false,
        }
    }
}

} // verus!

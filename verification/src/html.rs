//! A parsed HTML element tree and the searches over it: walking it in
//! document order, the first or every element that a condition picks,
//! and the element that a key ranks highest.

use crate::algo::it::max_index_spec;
use crate::algo::order::partial_order_obeyed;
use crate::text::str_eq;
use crate::collections::vec_map::{Entries, VecMap};
use vstd::prelude::*;
use vstd::string::StringSliceAdditionalSpecFns;

verus! {

/// An HTML element: its tag name, its attributes (in document order), the
/// non-empty trimmed text pieces directly inside it and its child elements.
pub struct Node {
    pub name: String,
    pub attrs: VecMap,
    pub text: Vec<String>,
    pub children: Vec<Box<Node>>,
}

/// What an element holds, as mathematical values.
pub struct NodeModel {
    pub name: Seq<char>,
    pub attrs: Entries,
    pub text: Seq<Seq<char>>,
    pub children: Seq<NodeModel>,
}

/// The characters of each string.
pub open spec fn texts_of(s: Seq<String>) -> Seq<Seq<char>> {
    Seq::new(s.len(), |i: int| s[i]@)
}

/// The model of an element and of everything below it.
pub open spec fn model_of(n: Node) -> NodeModel
    decreases n,
{
    NodeModel {
        name: n.name@,
        attrs: n.attrs@,
        text: texts_of(n.text@),
        children: models_of(n.children@),
    }
}

/// The models of a list of elements.
pub open spec fn models_of(s: Seq<Box<Node>>) -> Seq<NodeModel>
    decreases s,
{
    if s.len() == 0 {
        Seq::empty()
    } else {
        models_of(s.subrange(0, s.len() - 1)).push(model_of(*s[s.len() - 1]))
    }
}

impl View for Node {
    type V = NodeModel;

    open spec fn view(&self) -> NodeModel {
        model_of(*self)
    }
}

/// The elements of a tree in document order: each element before its
/// children, the children in order.
pub open spec fn preorder(n: Node) -> Seq<Node>
    decreases n,
{
    seq![n] + preorder_all(n.children@)
}

/// The elements of a list of trees in document order.
pub open spec fn preorder_all(s: Seq<Box<Node>>) -> Seq<Node>
    decreases s,
{
    if s.len() == 0 {
        Seq::empty()
    } else {
        preorder_all(s.subrange(0, s.len() - 1)) + preorder(*s[s.len() - 1])
    }
}

/// The models of a sequence of elements.
pub open spec fn models(s: Seq<Node>) -> Seq<NodeModel> {
    s.map_values(|n: Node| n@)
}

/// The elements that a sequence of references points to.
pub open spec fn deref_nodes(s: Seq<&Node>) -> Seq<Node> {
    s.map_values(|r: &Node| *r)
}

/// Number of bytes of UTF-8 that a list of texts takes.
pub open spec fn text_bytes(t: Seq<Seq<char>>) -> nat
    decreases t.len(),
{
    if t.len() == 0 {
        0
    } else {
        text_bytes(t.drop_last()) + vstd::utf8::encode_utf8(t.last()).len()
    }
}

/// Adding a tree at the end of a list adds its elements at the end.
pub proof fn lemma_preorder_all_prefix(s: Seq<Box<Node>>, i: int)
    requires
        0 <= i < s.len(),
    ensures
        preorder_all(s.subrange(0, i + 1)) == preorder_all(s.subrange(0, i)) + preorder(*s[i]),
{
    let t = s.subrange(0, i + 1);
    assert(t.subrange(0, t.len() - 1) =~= s.subrange(0, i));
}

/// Adding a tree at the end of a list adds its model at the end.
pub proof fn lemma_models_prefix(s: Seq<Box<Node>>, i: int)
    requires
        0 <= i < s.len(),
    ensures
        models_of(s.subrange(0, i + 1)) == models_of(s.subrange(0, i)).push(model_of(*s[i])),
{
    let t = s.subrange(0, i + 1);
    assert(t.subrange(0, t.len() - 1) =~= s.subrange(0, i));
}

impl Node {
    /// An element with the given tag name and nothing else.
    pub fn new_element(name: String) -> (r: Node)
        ensures
            r@ == (NodeModel {
                name: name@,
                attrs: Seq::empty(),
                text: Seq::empty(),
                children: Seq::empty(),
            }),
    {
        let r = Node { name, attrs: VecMap::new(), text: Vec::new(), children: Vec::new() };
        assert(texts_of(r.text@) =~= Seq::<Seq<char>>::empty());
        r
    }

    /// A copy of the whole tree.
    fn copy(&self) -> (r: Node)
        ensures
            r@ == self@,
        decreases self,
    {
        let mut children: Vec<Box<Node>> = Vec::new();
        let n = self.children.len();
        let mut i: usize = 0;
        while i < n
            invariant
                n == self.children@.len(),
                i <= n,
                models_of(children@) == models_of(self.children@.subrange(0, i as int)),
                children@.len() == i,
            decreases n - i,
        {
            let c = self.children[i].copy();
            proof {
                lemma_models_prefix(self.children@, i as int);
                lemma_models_prefix(children@.push(Box::new(c)), i as int);
                assert(children@.push(Box::new(c)).subrange(0, i as int) =~= children@);
                assert(children@.push(Box::new(c)).subrange(0, i + 1) =~= children@.push(
                    Box::new(c),
                ));
            }
            children.push(Box::new(c));
            i = i + 1;
        }
        proof {
            assert(self.children@.subrange(0, n as int) =~= self.children@);
        }
        let text = self.text.clone();
        assert(texts_of(text@) =~= texts_of(self.text@)) by {
            assert forall|k: int| 0 <= k < text@.len() implies text@[k] == self.text@[k] by {
                assert(vstd::pervasive::cloned::<String>(self.text@[k], text@[k]));
            }
        }
        Node { name: self.name.clone(), attrs: self.attrs.clone(), text, children }
    }

    /// Number of bytes in the element's own text pieces.
    pub fn text_len(&self) -> (r: usize)
        requires
            text_bytes(self@.text) <= usize::MAX,
        ensures
            r == text_bytes(self@.text),
    {
        let n = self.text.len();
        let mut sum: usize = 0;
        let mut i: usize = 0;
        while i < n
            invariant
                n == self.text@.len(),
                i <= n,
                self@.text == texts_of(self.text@),
                sum == text_bytes(self@.text.subrange(0, i as int)),
                text_bytes(self@.text) <= usize::MAX,
            decreases n - i,
        {
            let t = self.text[i].as_str();
            proof {
                let all = self@.text;
                assert(all.subrange(0, i + 1).drop_last() =~= all.subrange(0, i as int));
                assert(all.subrange(0, i + 1).last() == t@);
                lemma_text_bytes_prefix(all, i + 1);
            }
            sum = sum + t.len();
            i = i + 1;
        }
        proof {
            assert(self@.text.subrange(0, n as int) =~= self@.text);
        }
        sum
    }
}

/// The bytes of a prefix of a list of texts are no more than those of
/// the whole list.
pub proof fn lemma_text_bytes_prefix(t: Seq<Seq<char>>, k: int)
    requires
        0 <= k <= t.len(),
    ensures
        text_bytes(t.subrange(0, k)) <= text_bytes(t),
    decreases t.len() - k,
{
    if k < t.len() {
        lemma_text_bytes_prefix(t, k + 1);
        assert(t.subrange(0, k + 1).drop_last() =~= t.subrange(0, k));
    } else {
        assert(t.subrange(0, k) =~= t);
    }
}

impl Clone for Node {
    fn clone(&self) -> (r: Self)
        ensures
            r@ == self@,
    {
        self.copy()
    }
}

impl Default for Node {
    fn default() -> (r: Self)
        ensures
            r@ == (NodeModel {
                name: Seq::empty(),
                attrs: Seq::empty(),
                text: Seq::empty(),
                children: Seq::empty(),
            }),
    {
        Node::new_element(String::new())
    }
}


/// `f` may be asked about every element of `s`.
pub open spec fn callable_on_all<Args, F: FnOnce(&Node) -> Args>(f: F, s: Seq<Node>) -> bool {
    forall|i: int| #![trigger s[i]] 0 <= i < s.len() ==> call_requires(f, (&s[i],))
}

/// `f` may answer `b` about every element of `s` before index `k`.
pub open spec fn answers_before<F: FnOnce(&Node) -> bool>(f: F, s: Seq<Node>, k: int, b: bool) -> bool {
    forall|j: int| #![trigger s[j]] 0 <= j < k ==> call_ensures(f, (&s[j],), b)
}

/// The element at `k` is the first of `s` for which `f` may answer
/// `b`: every one before it gets the other answer.
pub open spec fn first_answer<F: FnOnce(&Node) -> bool>(f: F, s: Seq<Node>, k: int, b: bool) -> bool {
    &&& 0 <= k < s.len()
    &&& answers_before(f, s, k, !b)
    &&& call_ensures(f, (&s[k],), b)
}

/// `keys` is a sequence of answers that `f` may give, one for each
/// element of `s`.
pub open spec fn answers_all<R, F: FnOnce(&Node) -> R>(f: F, s: Seq<Node>, keys: Seq<R>) -> bool {
    &&& keys.len() == s.len()
    &&& forall|j: int| #![trigger s[j]] 0 <= j < s.len() ==> call_ensures(f, (&s[j],), keys[j])
}

/// The models whose flag is set, in order.
pub open spec fn picked(s: Seq<NodeModel>, keep: Seq<bool>) -> Seq<NodeModel>
    decreases s.len(),
{
    if s.len() == 0 {
        Seq::empty()
    } else {
        let rest = picked(s.drop_last(), keep.subrange(0, s.len() - 1));
        if keep[s.len() - 1] {
            rest.push(s.last())
        } else {
            rest
        }
    }
}

/// Byte sizes of the element's own texts, one for each element.
pub open spec fn text_sizes(s: Seq<Node>) -> Seq<usize> {
    Seq::new(s.len(), |i: int| text_bytes(s[i]@.text) as usize)
}

/// Numbers of children, one for each element.
pub open spec fn child_counts(s: Seq<Node>) -> Seq<usize> {
    Seq::new(s.len(), |i: int| s[i].children@.len() as usize)
}

/// Whether each element is an `h1`.
pub open spec fn h1_flags(s: Seq<Node>) -> Seq<bool> {
    Seq::new(s.len(), |i: int| s[i]@.name == "h1"@)
}

/// The positions of the models that `picked` keeps, in increasing order.
proof fn lemma_picked_positions(s: Seq<NodeModel>, keep: Seq<bool>) -> (idx: Seq<int>)
    requires
        keep.len() == s.len(),
    ensures
        idx.len() == picked(s, keep).len(),
        forall|a: int| 0 <= a < idx.len() ==> 0 <= #[trigger] idx[a] < s.len() && keep[idx[a]] && picked(s, keep)[a]
            == s[idx[a]],
        forall|a: int, b: int| 0 <= a < b < idx.len() ==> #[trigger] idx[a] < #[trigger] idx[b],
        forall|j: int| 0 <= j < s.len() && #[trigger] keep[j] ==> exists|a: int| 0 <= a < idx.len() && idx[a] == j,
    decreases s.len(),
{
    if s.len() == 0 {
        Seq::empty()
    } else {
        let t = s.drop_last();
        let kt = keep.subrange(0, s.len() - 1);
        let prev = lemma_picked_positions(t, kt);
        let l = s.len() - 1;
        let idx = if keep[l] {
            prev.push(l)
        } else {
            prev
        };
        assert forall|a: int| 0 <= a < idx.len() implies 0 <= #[trigger] idx[a] < s.len() && keep[idx[a]]
            && picked(s, keep)[a] == s[idx[a]] by {
            if a < prev.len() {
                assert(idx[a] == prev[a]);
                assert(kt[prev[a]] == keep[prev[a]]);
                assert(t[prev[a]] == s[prev[a]]);
            }
        }
        assert forall|j: int| 0 <= j < s.len() && #[trigger] keep[j] implies exists|a: int|
            0 <= a < idx.len() && idx[a] == j by {
            if j < l {
                assert(kt[j] == keep[j]);
                let a = choose|a: int| 0 <= a < prev.len() && prev[a] == j;
                assert(idx[a] == j);
            } else {
                assert(idx[prev.len() as int] == j);
            }
        }
        idx
    }
}

/// `find_all` lists, in document order, exactly the elements whose
/// answer is `true`: each listed one is an element with answer `true`,
/// each element with answer `true` is listed, and they keep their order.
pub proof fn law_picked_exactly_the_kept(s: Seq<NodeModel>, keep: Seq<bool>)
    requires
        keep.len() == s.len(),
    ensures
        exists|idx: Seq<int>|
            #![trigger idx.len()]
            idx.len() == picked(s, keep).len() && (forall|a: int|
                0 <= a < idx.len() ==> 0 <= #[trigger] idx[a] < s.len() && keep[idx[a]] && picked(s, keep)[a]
                    == s[idx[a]]) && (forall|a: int, b: int|
                0 <= a < b < idx.len() ==> #[trigger] idx[a] < #[trigger] idx[b]) && (forall|j: int|
                0 <= j < s.len() && #[trigger] keep[j] ==> exists|a: int| 0 <= a < idx.len() && idx[a] == j),
{
    let idx = lemma_picked_positions(s, keep);
    assert(idx.len() == picked(s, keep).len());
}

/// What `find_first` finds is what `find_all` lists first: for one set
/// of answers, the first element picked leads the list of all picked,
/// and nothing is picked exactly when every answer is `false`.
pub proof fn law_first_leads_all(s: Seq<NodeModel>, keep: Seq<bool>, k: int)
    requires
        keep.len() == s.len(),
        0 <= k <= s.len(),
        forall|j: int| 0 <= j < k ==> !#[trigger] keep[j],
        k < s.len() ==> keep[k],
    ensures
        k < s.len() ==> picked(s, keep).len() > 0 && picked(s, keep)[0] == s[k],
        k == s.len() ==> picked(s, keep).len() == 0,
    decreases s.len(),
{
    if s.len() > 0 {
        let t = s.drop_last();
        let kt = keep.subrange(0, s.len() - 1);
        if k < s.len() - 1 {
            law_first_leads_all(t, kt, k);
        } else {
            law_first_leads_all(t, kt, t.len() as int);
        }
    }
}

impl Node {
    /// Appends references to the elements of the tree, in document order.
    fn collect_preorder<'a>(&'a self, out: &mut Vec<&'a Node>)
        ensures
            deref_nodes(final(out)@) == deref_nodes(old(out)@) + preorder(*self),
        decreases self,
    {
        let ghost start = deref_nodes(out@);
        out.push(self);
        proof {
            assert(deref_nodes(out@) =~= start + seq![*self]);
            assert(self.children@.subrange(0, 0) =~= Seq::<Box<Node>>::empty());
            assert(preorder_all(self.children@.subrange(0, 0)) =~= Seq::<Node>::empty());
        }
        let n = self.children.len();
        let mut i: usize = 0;
        while i < n
            invariant
                n == self.children@.len(),
                i <= n,
                deref_nodes(out@) == start + seq![*self] + preorder_all(
                    self.children@.subrange(0, i as int),
                ),
            decreases n - i,
        {
            let child: &'a Node = &self.children[i];
            child.collect_preorder(out);
            proof {
                lemma_preorder_all_prefix(self.children@, i as int);
                assert(start + seq![*self] + preorder_all(self.children@.subrange(0, i + 1))
                    =~= start + seq![*self] + preorder_all(self.children@.subrange(0, i as int))
                    + preorder(*child));
            }
            i = i + 1;
        }
        proof {
            assert(self.children@.subrange(0, n as int) =~= self.children@);
            assert(deref_nodes(old(out)@) == start);
        }
    }

    /// References to the elements of the tree, in document order.
    fn preorder_refs(&self) -> (r: Vec<&Node>)
        ensures
            deref_nodes(r@) == preorder(*self),
    {
        let mut out: Vec<&Node> = Vec::new();
        proof {
            assert(deref_nodes(out@) =~= Seq::<Node>::empty());
        }
        self.collect_preorder(&mut out);
        proof {
            assert(Seq::<Node>::empty() + preorder(*self) =~= preorder(*self));
        }
        out
    }

    /// Visits the tree in document order, the element first and then each
    /// child's tree, until `fun` answers `false`. Returns whether every
    /// element was visited with the answer `true`.
    pub fn walk<F: FnMut(&Node) -> bool>(&self, fun: &mut F) -> (r: bool)
        requires
            callable_on_all(*old(fun), preorder(*self)),
        ensures
            *final(fun) == *old(fun),
            r ==> answers_before(*old(fun), preorder(*self), preorder(*self).len() as int, true),
            !r ==> exists|k: int| first_answer(*old(fun), preorder(*self), k, false),
    {
        let refs = self.preorder_refs();
        let ghost pre = preorder(*self);
        let ghost f0 = *fun;
        let n = refs.len();
        let mut i: usize = 0;
        while i < n
            invariant
                n == refs@.len(),
                deref_nodes(refs@) == pre,
                pre == preorder(*self),
                i <= n,
                *fun == f0,
                f0 == *old(fun),
                callable_on_all(f0, pre),
                answers_before(f0, pre, i as int, true),
            decreases n - i,
        {
            let node: &Node = refs[i];
            assert(*node == pre[i as int]);
            if !fun(node) {
                assert(first_answer(f0, pre, i as int, false));
                return false;
            }
            i = i + 1;
        }
        true
    }

    /// A copy of the first element, in document order, for which `fun`
    /// answers `true`, or `None` when it answers `false` for all.
    pub fn find_first<Cond: Fn(&Node) -> bool>(&self, fun: &Cond) -> (r: Option<Node>)
        requires
            callable_on_all(*fun, preorder(*self)),
        ensures
            r matches Some(n) ==> exists|k: int|
                first_answer(*fun, preorder(*self), k, true) && n@ == #[trigger] preorder(*self)[k]@,
            r is None ==> answers_before(*fun, preorder(*self), preorder(*self).len() as int, false),
    {
        let refs = self.preorder_refs();
        let ghost pre = preorder(*self);
        let n = refs.len();
        let mut i: usize = 0;
        while i < n
            invariant
                n == refs@.len(),
                deref_nodes(refs@) == pre,
                pre == preorder(*self),
                i <= n,
                callable_on_all(*fun, pre),
                answers_before(*fun, pre, i as int, false),
            decreases n - i,
        {
            let node: &Node = refs[i];
            assert(*node == pre[i as int]);
            if fun(node) {
                let found = node.clone();
                assert(first_answer(*fun, pre, i as int, true));
                assert(found@ == pre[i as int]@);
                return Some(found);
            }
            i = i + 1;
        }
        None
    }

    /// Copies of every element, in document order, for which `fun`
    /// answers `true`.
    pub fn find_all<Cond: Fn(&Node) -> bool>(&self, fun: &Cond) -> (r: Vec<Node>)
        requires
            callable_on_all(*fun, preorder(*self)),
        ensures
            exists|keep: Seq<bool>|
                answers_all(*fun, preorder(*self), keep) && #[trigger] picked(
                    models(preorder(*self)),
                    keep,
                ) == models(r@),
    {
        let refs = self.preorder_refs();
        let ghost pre = preorder(*self);
        let ghost mut keep: Seq<bool> = Seq::empty();
        let mut nodes: Vec<Node> = Vec::new();
        let n = refs.len();
        let mut i: usize = 0;
        while i < n
            invariant
                n == refs@.len(),
                deref_nodes(refs@) == pre,
                pre == preorder(*self),
                i <= n,
                callable_on_all(*fun, pre),
                keep.len() == i,
                forall|j: int| #![trigger pre[j]] 0 <= j < i ==> call_ensures(*fun, (&pre[j],), keep[j]),
                models(nodes@) == picked(models(pre.subrange(0, i as int)), keep),
            decreases n - i,
        {
            let node: &Node = refs[i];
            assert(*node == pre[i as int]);
            let b = fun(node);
            proof {
                let m = models(pre.subrange(0, i + 1));
                assert(m.drop_last() =~= models(pre.subrange(0, i as int)));
                assert(keep.push(b).subrange(0, i as int) =~= keep);
                assert(m.last() == pre[i as int]@);
            }
            if b {
                let c = node.clone();
                proof {
                    assert(models(nodes@.push(c)) =~= models(nodes@).push(c@));
                }
                nodes.push(c);
            }
            proof {
                keep = keep.push(b);
            }
            i = i + 1;
        }
        proof {
            assert(pre.subrange(0, n as int) =~= pre);
            assert(answers_all(*fun, pre, keep));
        }
        nodes
    }

    /// A copy of the element, in document order, whose key `fun` ranks
    /// highest: an element replaces the best so far only when its key is
    /// greater, so of equal keys the first wins. The tree always has an
    /// element, so the result is never `None`.
    pub fn find_max<F: Fn(&Node) -> R, R: Ord>(&self, fun: &F) -> (r: Option<Node>)
        requires
            callable_on_all(*fun, preorder(*self)),
        ensures
            r is Some,
            exists|keys: Seq<R>|
                #[trigger] answers_all(*fun, preorder(*self), keys) && (partial_order_obeyed::<R>()
                    ==> r->0@ == preorder(*self)[max_index_spec(keys)]@),
    {
        let refs = self.preorder_refs();
        let ghost pre = preorder(*self);
        let n = refs.len();
        assert(pre.len() == 1 + preorder_all(self.children@).len());
        assert(deref_nodes(refs@).len() == refs@.len());
        assert(*refs[0] == pre[0]);
        let mut best: &Node = refs[0];
        let mut best_key: R = fun(best);
        let ghost mut keys: Seq<R> = seq![best_key];
        let ghost mut m: int = 0;
        let mut i: usize = 1;
        while i < n
            invariant
                n == refs@.len(),
                n == pre.len(),
                deref_nodes(refs@) == pre,
                pre == preorder(*self),
                1 <= i <= n,
                callable_on_all(*fun, pre),
                keys.len() == i,
                forall|j: int| #![trigger pre[j]] 0 <= j < i ==> call_ensures(*fun, (&pre[j],), keys[j]),
                0 <= m < i,
                *best == pre[m],
                best_key == keys[m],
                partial_order_obeyed::<R>() ==> m == max_index_spec(keys),
            decreases n - i,
        {
            let node: &Node = refs[i];
            assert(*node == pre[i as int]);
            let k = fun(node);
            proof {
                assert(keys.push(k).drop_last() =~= keys);
                keys = keys.push(k);
            }
            if k > best_key {
                best = node;
                best_key = k;
                proof {
                    m = i as int;
                }
            }
            i = i + 1;
        }
        let found = best.clone();
        proof {
            assert(answers_all(*fun, pre, keys));
            assert(found@ == pre[m]@);
            assert(partial_order_obeyed::<R>() ==> found@ == pre[max_index_spec(keys)]@);
        }
        Some(found)
    }

    /// A copy of the element, in document order, with the most bytes of
    /// own text; of equal sizes the first wins.
    pub fn find_max_text(&self) -> (r: Option<Node>)
        requires
            forall|i: int|
                0 <= i < preorder(*self).len() ==> text_bytes(#[trigger] preorder(*self)[i]@.text)
                    <= usize::MAX,
        ensures
            r is Some,
            r->0@ == preorder(*self)[max_index_spec(text_sizes(preorder(*self)))]@,
    {
        let size = |node: &Node| -> (k: usize)
            requires
                text_bytes(node@.text) <= usize::MAX,
            ensures
                k == text_bytes(node@.text),
            { node.text_len() };
        let ghost pre = preorder(*self);
        assert(callable_on_all(size, pre));
        let r = self.find_max(&size);
        proof {
            let keys = choose|keys: Seq<usize>|
                #[trigger] answers_all(size, pre, keys) && (partial_order_obeyed::<usize>()
                    ==> r->0@ == pre[max_index_spec(keys)]@);
            assert(keys =~= text_sizes(pre)) by {
                assert forall|j: int| 0 <= j < keys.len() implies keys[j] == text_sizes(pre)[j] by {
                    assert(call_ensures(size, (&pre[j],), keys[j]));
                }
            }
        }
        r
    }

    /// A copy of the element, in document order, with the most children;
    /// of equal counts the first wins.
    pub fn find_max_children(&self) -> (r: Option<Node>)
        ensures
            r is Some,
            r->0@ == preorder(*self)[max_index_spec(child_counts(preorder(*self)))]@,
    {
        let count = |node: &Node| -> (k: usize)
            ensures
                k == node.children@.len(),
            { node.children.len() };
        let ghost pre = preorder(*self);
        assert(callable_on_all(count, pre));
        let r = self.find_max(&count);
        proof {
            let keys = choose|keys: Seq<usize>|
                #[trigger] answers_all(count, pre, keys) && (partial_order_obeyed::<usize>()
                    ==> r->0@ == pre[max_index_spec(keys)]@);
            assert(keys =~= child_counts(pre)) by {
                assert forall|j: int| 0 <= j < keys.len() implies keys[j] == child_counts(pre)[j] by {
                    assert(call_ensures(count, (&pre[j],), keys[j]));
                }
            }
        }
        r
    }

    /// Copies of every `h1` element, in document order.
    pub fn find_all_h1(&self) -> (r: Vec<Node>)
        ensures
            models(r@) == picked(models(preorder(*self)), h1_flags(preorder(*self))),
    {
        let is_h1 = |node: &Node| -> (b: bool)
            ensures
                b == (node@.name == "h1"@),
            { str_eq(node.name.as_str(), "h1") };
        let ghost pre = preorder(*self);
        assert(callable_on_all(is_h1, pre));
        let r = self.find_all(&is_h1);
        proof {
            let keep = choose|keep: Seq<bool>|
                answers_all(is_h1, pre, keep) && #[trigger] picked(models(pre), keep) == models(r@);
            assert(keep =~= h1_flags(pre)) by {
                assert forall|j: int| 0 <= j < keep.len() implies keep[j] == h1_flags(pre)[j] by {
                    assert(call_ensures(is_h1, (&pre[j],), keep[j]));
                }
            }
        }
        r
    }
}

} // verus!

//! Directory helpers that compute on paths as text: the ancestors of a
//! path, the files of one listing that have no counterpart in another,
//! and where the translation of a file goes.

use crate::fs::{
    file_name_of, file_stem, file_stem_of, file_stem_owned, has_file_name, join, join_of, parent_of, path_parent,
};
use crate::text::order::{sort_texts, text_sorted, views};
use crate::text::str_eq;
use vstd::prelude::*;
use vstd::string::StringExecFns;

verus! {

/// The `n`-th ancestor of a path: the path itself, then its parent, and
/// so on, as long as there is a parent.
pub open spec fn ancestor_of(p: Seq<char>, n: nat) -> Option<Seq<char>>
    decreases n,
{
    if n == 0 {
        Some(p)
    } else {
        match ancestor_of(p, (n - 1) as nat) {
            Some(q) => path_parent(q),
            None => None,
        }
    }
}

/// A path that has an `n`-th ancestor has every nearer one.
pub proof fn lemma_ancestor_nearer(p: Seq<char>, m: nat, n: nat)
    requires
        m <= n,
        ancestor_of(p, n) is Some,
    ensures
        ancestor_of(p, m) is Some,
    decreases n - m,
{
    if m < n {
        lemma_ancestor_nearer(p, (m + 1) as nat, n);
    }
}

/// The `n`-th ancestor of a path (`0` is the path itself); the path must
/// have one.
pub fn ancestor_nth(p: &str, n: usize) -> (r: String)
    requires
        ancestor_of(p@, n as nat) is Some,
    ensures
        Some(r@) == ancestor_of(p@, n as nat),
{
    let mut cur = p.to_owned();
    let mut i: usize = 0;
    while i < n
        invariant
            i <= n,
            ancestor_of(p@, i as nat) == Some(cur@),
            ancestor_of(p@, n as nat) is Some,
        decreases n - i,
    {
        proof {
            lemma_ancestor_nearer(p@, (i + 1) as nat, n as nat);
        }
        cur = parent_of(cur.as_str()).unwrap();
        i = i + 1;
    }
    cur
}

/// The `n`-th ancestor of a path, or `None` when the path has fewer.
pub fn try_ancestor_nth(p: &str, n: usize) -> (r: Option<String>)
    ensures
        r is None <==> ancestor_of(p@, n as nat) is None,
        r matches Some(q) ==> Some(q@) == ancestor_of(p@, n as nat),
{
    let mut cur = p.to_owned();
    let mut i: usize = 0;
    while i < n
        invariant
            i <= n,
            ancestor_of(p@, i as nat) == Some(cur@),
        decreases n - i,
    {
        match parent_of(cur.as_str()) {
            Some(q) => {
                cur = q;
            },
            None => {
                proof {
                    assert(ancestor_of(p@, (i + 1) as nat) is None);
                    if ancestor_of(p@, n as nat) is Some {
                        lemma_ancestor_nearer(p@, (i + 1) as nat, n as nat);
                    }
                }
                return None;
            },
        }
        i = i + 1;
    }
    Some(ancestor_nth(p, n))
}

/// Some path of the list has the file stem `stem`.
pub open spec fn has_stem(paths: Seq<Seq<char>>, stem: Option<Seq<char>>) -> bool {
    exists|j: int| 0 <= j < paths.len() && file_stem_of(#[trigger] paths[j]) == stem
}

/// The paths of `src`, in order, whose file stem no path of `dst` has.
pub open spec fn unmatched(src: Seq<Seq<char>>, dst: Seq<Seq<char>>) -> Seq<Seq<char>>
    decreases src.len(),
{
    if src.len() == 0 {
        Seq::empty()
    } else {
        let rest = unmatched(src.drop_last(), dst);
        if has_stem(dst, file_stem_of(src.last())) {
            rest
        } else {
            rest.push(src.last())
        }
    }
}

/// A path is left to translate exactly when it is a source path and no
/// target path has its file stem; an empty target list leaves every
/// source path.
pub proof fn law_unmatched_exactly_the_unpaired(src: Seq<Seq<char>>, dst: Seq<Seq<char>>)
    ensures
        forall|p: Seq<char>|
            #[trigger] unmatched(src, dst).contains(p) <==> (src.contains(p) && !(exists|q: int|
                0 <= q < dst.len() && file_stem_of(#[trigger] dst[q]) == file_stem_of(p))),
        unmatched(src, dst).len() <= src.len(),
        forall|p: Seq<char>|
            #[trigger] unmatched(src, dst).to_multiset().count(p) == if exists|q: int|
                0 <= q < dst.len() && file_stem_of(#[trigger] dst[q]) == file_stem_of(p) {
                0
            } else {
                src.to_multiset().count(p)
            },
    decreases src.len(),
{
    if src.len() == 0 {
        src.to_multiset_ensures();
        unmatched(src, dst).to_multiset_ensures();
    }
    if src.len() > 0 {
        let t = src.drop_last();
        law_unmatched_exactly_the_unpaired(t, dst);
        assert(src =~= t.push(src.last()));
        t.to_multiset_ensures();
        unmatched(t, dst).to_multiset_ensures();
        assert forall|p: Seq<char>|
            #[trigger] unmatched(src, dst).to_multiset().count(p) == if exists|q: int|
                0 <= q < dst.len() && file_stem_of(#[trigger] dst[q]) == file_stem_of(p) {
                0
            } else {
                src.to_multiset().count(p)
            } by {
            if !has_stem(dst, file_stem_of(src.last())) && p == src.last() {
                assert(!(exists|q: int| 0 <= q < dst.len() && file_stem_of(#[trigger] dst[q]) == file_stem_of(p)));
            }
            if has_stem(dst, file_stem_of(src.last())) && p == src.last() {
                let q = choose|q: int| 0 <= q < dst.len() && file_stem_of(#[trigger] dst[q]) == file_stem_of(src.last());
            }
        }
        let rest = unmatched(t, dst);
        let u = unmatched(src, dst);
        let x = src.last();
        assert forall|p: Seq<char>| #[trigger] u.contains(p) <==> (src.contains(p) && !(exists|q: int|
            0 <= q < dst.len() && file_stem_of(#[trigger] dst[q]) == file_stem_of(p))) by {
            if rest.contains(p) {
                let a = choose|a: int| 0 <= a < rest.len() && rest[a] == p;
                assert(u[a] == p);
                let b = choose|b: int| 0 <= b < t.len() && t[b] == p;
                assert(src[b] == p);
            }
            if u.contains(p) && !rest.contains(p) {
                let a = choose|a: int| 0 <= a < u.len() && u[a] == p;
                if a < rest.len() {
                    assert(rest[a] == p);
                }
                assert(p == x);
                assert(src[src.len() - 1] == p);
            }
            if src.contains(p) && !(exists|q: int| 0 <= q < dst.len() && file_stem_of(#[trigger] dst[q])
                == file_stem_of(p)) {
                let b = choose|b: int| 0 <= b < src.len() && src[b] == p;
                if b < t.len() {
                    assert(t[b] == p);
                    assert(rest.contains(p));
                    let a = choose|a: int| 0 <= a < rest.len() && rest[a] == p;
                    assert(u[a] == p);
                } else {
                    assert(p == x);
                    assert(!has_stem(dst, file_stem_of(x)));
                    assert(u[rest.len() as int] == p);
                }
            }
        }
    }
}

/// The paths that `dir_stem_diff` keeps come from the source list, and
/// none has a stem that the target list has.
pub proof fn law_unmatched_have_no_counterpart(src: Seq<Seq<char>>, dst: Seq<Seq<char>>)
    ensures
        forall|i: int|
            0 <= i < unmatched(src, dst).len() ==> src.contains(#[trigger] unmatched(src, dst)[i])
                && !has_stem(dst, file_stem_of(unmatched(src, dst)[i])),
    decreases src.len(),
{
    if src.len() > 0 {
        let t = src.drop_last();
        law_unmatched_have_no_counterpart(t, dst);
        let rest = unmatched(t, dst);
        let u = unmatched(src, dst);
        assert forall|i: int| 0 <= i < u.len() implies src.contains(#[trigger] u[i]) && !has_stem(
            dst,
            file_stem_of(u[i]),
        ) by {
            if i < rest.len() {
                assert(u[i] == rest[i]);
                assert(t.contains(rest[i]));
                let j = choose|j: int| 0 <= j < t.len() && t[j] == rest[i];
                assert(src[j] == t[j]);
            } else {
                assert(u[i] == src.last());
                assert(src[src.len() - 1] == u[i]);
            }
        }
    }
}

/// Every path of the list has a file name.
pub open spec fn all_named(paths: Seq<Seq<char>>) -> bool {
    forall|i: int| 0 <= i < paths.len() ==> (#[trigger] file_name_of(paths[i])) is Some
}

/// The files listed in `src_files` whose stem no file listed in
/// `dst_files` has, sorted; for the files of one directory the text order
/// is the order of their paths. Every path must have a file name.
pub fn dir_stem_diff(src_files: &Vec<String>, dst_files: &Vec<String>) -> (r: Vec<String>)
    requires
        all_named(views(src_files@)),
        all_named(views(dst_files@)),
    ensures
        views(r@).to_multiset() == unmatched(views(src_files@), views(dst_files@)).to_multiset(),
        text_sorted(views(r@)),
{
    let ghost dst = views(dst_files@);
    let ghost src = views(src_files@);
    let mut stems: Vec<String> = Vec::new();
    let nd = dst_files.len();
    let mut j: usize = 0;
    while j < nd
        invariant
            nd == dst_files@.len(),
            dst == views(dst_files@),
            all_named(dst),
            j <= nd,
            stems@.len() == j,
            forall|k: int| 0 <= k < j ==> Some(#[trigger] stems@[k]@) == file_stem_of(dst[k]),
        decreases nd - j,
    {
        assert(file_name_of(dst[j as int]) is Some);
        let st = file_stem_owned(dst_files[j].as_str());
        stems.push(st);
        j = j + 1;
    }
    let mut kept: Vec<String> = Vec::new();
    let ns = src_files.len();
    let mut i: usize = 0;
    proof {
        assert(src.subrange(0, 0) =~= Seq::<Seq<char>>::empty());
        assert(views(kept@) =~= Seq::<Seq<char>>::empty());
    }
    while i < ns
        invariant
            ns == src_files@.len(),
            src == views(src_files@),
            dst == views(dst_files@),
            all_named(src),
            stems@.len() == nd,
            nd == dst.len(),
            forall|k: int| 0 <= k < nd ==> Some(#[trigger] stems@[k]@) == file_stem_of(dst[k]),
            i <= ns,
            views(kept@) == unmatched(src.subrange(0, i as int), dst),
        decreases ns - i,
    {
        assert(file_name_of(src[i as int]) is Some);
        let st = file_stem(src_files[i].as_str());
        let mut found = false;
        let mut k: usize = 0;
        while k < nd
            invariant
                stems@.len() == nd,
                nd == dst.len(),
                forall|q: int| 0 <= q < nd ==> Some(#[trigger] stems@[q]@) == file_stem_of(dst[q]),
                k <= nd,
                found ==> has_stem(dst, Some(st@)),
                !found ==> forall|q: int| 0 <= q < k ==> stems@[q]@ != st@,
            decreases nd - k,
        {
            if str_eq(stems[k].as_str(), st) {
                assert(file_stem_of(dst[k as int]) == Some(st@));
                found = true;
                k = nd;
            } else {
                k = k + 1;
            }
        }
        proof {
            let t = src.subrange(0, i + 1);
            assert(t.drop_last() =~= src.subrange(0, i as int));
            assert(t.last() == src[i as int]);
            assert(file_stem_of(src[i as int]) == Some(st@));
            if !found {
                assert(!has_stem(dst, Some(st@))) by {
                    if has_stem(dst, Some(st@)) {
                        let q = choose|q: int| 0 <= q < dst.len() && file_stem_of(#[trigger] dst[q]) == Some(st@);
                        assert(Some(stems@[q]@) == file_stem_of(dst[q]));
                    }
                }
            }
        }
        if !found {
            let c = src_files[i].clone();
            proof {
                assert(views(kept@.push(c)) =~= views(kept@).push(c@));
            }
            kept.push(c);
        }
        i = i + 1;
    }
    proof {
        assert(src.subrange(0, ns as int) =~= src);
    }
    sort_texts(&kept)
}

/// Where the translation of a file goes: into `dst_dir`, under the file's
/// stem with the extension `srt`.
pub open spec fn translated_path(src_file: Seq<char>, dst_dir: Seq<char>) -> Seq<char> {
    join_of(dst_dir, file_stem_of(src_file).unwrap() + seq!['.', 's', 'r', 't'])
}

/// The source files of a translation plan, in order.
pub open spec fn plan_sources(plan: Seq<(String, String)>) -> Seq<Seq<char>> {
    plan.map_values(|p: (String, String)| p.0@)
}

/// `anyhow::Error`, the error that a translation reports.
#[verifier::external_type_specification]
#[verifier::external_body]
pub struct ExAnyhowError(anyhow::Error);

/// Turns one file into another.
pub trait FileTranslator {
    /// Writes the translation of the file at `src` to `dst`.
    fn translate(&self, src: &str, dst: &str) -> Result<(), anyhow::Error>;
}

/// Translates the files of one directory whose stems the other directory
/// does not have yet.
pub struct DirTranslator {
    pub src_ext: String,
    pub dst_ext: String,
}

impl DirTranslator {
    /// Where the translation of `src_file` goes in `dst_dir`; the file
    /// must have a name.
    pub fn target_path(src_file: &str, dst_dir: &str) -> (r: String)
        requires
            file_name_of(src_file@) is Some,
        ensures
            r@ == translated_path(src_file@, dst_dir@),
    {
        let mut name = file_stem_owned(src_file);
        name.append(".srt");
        proof {
            reveal_strlit(".srt");
        }
        join(dst_dir, name.as_str())
    }

    /// What a translation of a directory does: for every file listed in
    /// `src_files` whose stem no file listed in `dst_files` has, in sorted
    /// order, the file with the path its translation goes to in `dst_dir`.
    pub fn translation_plan(src_files: &Vec<String>, dst_files: &Vec<String>, dst_dir: &str) -> (r: Vec<
        (String, String),
    >)
        requires
            all_named(views(src_files@)),
            all_named(views(dst_files@)),
        ensures
            plan_sources(r@).to_multiset() == unmatched(views(src_files@), views(dst_files@)).to_multiset(),
            text_sorted(plan_sources(r@)),
            forall|i: int| 0 <= i < r@.len() ==> (#[trigger] r@[i]).1@ == translated_path(r@[i].0@, dst_dir@),
    {
        let diff = dir_stem_diff(src_files, dst_files);
        proof {
            views(diff@).to_multiset_ensures();
            unmatched(views(src_files@), views(dst_files@)).to_multiset_ensures();
            assert(views(diff@).len() == diff@.len());
            lemma_unmatched_named(views(src_files@), views(dst_files@));
            let u = unmatched(views(src_files@), views(dst_files@));
            assert forall|i: int| 0 <= i < views(diff@).len() implies (#[trigger] file_name_of(
                views(diff@)[i],
            )) is Some by {
                let x = views(diff@)[i];
                assert(views(diff@).contains(x));
                assert(u.to_multiset().count(x) > 0);
                assert(u.contains(x));
                let k = choose|k: int| 0 <= k < u.len() && u[k] == x;
                assert(file_name_of(u[k]) is Some);
            }
        }
        let total = diff.len();
        let mut plan: Vec<(String, String)> = Vec::new();
        let mut i: usize = 0;
        while i < total
            invariant
                total == diff@.len(),
                all_named(views(diff@)),
                i <= total,
                plan@.len() == i,
                forall|k: int| 0 <= k < i ==> (#[trigger] plan@[k]).0@ == diff@[k]@,
                forall|k: int| 0 <= k < i ==> (#[trigger] plan@[k]).1@ == translated_path(diff@[k]@, dst_dir@),
            decreases total - i,
        {
            assert(file_name_of(views(diff@)[i as int]) is Some);
            let dst_file = DirTranslator::target_path(diff[i].as_str(), dst_dir);
            plan.push((diff[i].clone(), dst_file));
            i = i + 1;
        }
        proof {
            assert(plan_sources(plan@) =~= views(diff@));
        }
        plan
    }

    /// Translates every file listed in `src_files` (the files with the
    /// source extension) whose stem no file listed in `dst_files` (those
    /// with the target extension) has, in sorted order, into `dst_dir`,
    /// as `translation_plan` lays out; a failed translation does not stop
    /// the others. Returns how many files were to be translated.
    pub fn translate_dir<T: FileTranslator>(
        &self,
        src_files: &Vec<String>,
        dst_files: &Vec<String>,
        dst_dir: &str,
        translator: &T,
    ) -> (r: usize)
        requires
            all_named(views(src_files@)),
            all_named(views(dst_files@)),
        ensures
            r == unmatched(views(src_files@), views(dst_files@)).len(),
    {
        let plan = DirTranslator::translation_plan(src_files, dst_files, dst_dir);
        proof {
            plan_sources(plan@).to_multiset_ensures();
            unmatched(views(src_files@), views(dst_files@)).to_multiset_ensures();
        }
        let total = plan.len();
        let mut i: usize = 0;
        while i < total
            invariant
                total == plan@.len(),
                i <= total,
            decreases total - i,
        {
            let _ = translator.translate(plan[i].0.as_str(), plan[i].1.as_str());
            i = i + 1;
        }
        total
    }
}

/// The first of `paths` whose file name is `name`.
pub open spec fn first_named(paths: Seq<Seq<char>>, name: Seq<char>) -> Option<Seq<char>>
    decreases paths.len(),
{
    if paths.len() == 0 {
        None
    } else if file_name_of(paths[0]) == Some(name) {
        Some(paths[0])
    } else {
        first_named(paths.drop_first(), name)
    }
}

/// One step of the breadth-first search for a directory named `name`:
/// `children` are the directories found in the directory taken off the
/// front of `queue`, in the order listed. The first of them named `name`
/// is the answer and the queue stays as it is; when none is, they all
/// join the end of the queue, to be searched in turn.
pub fn search_step(queue: &mut Vec<String>, children: Vec<String>, name: &str) -> (r: Option<String>)
    ensures
        match r {
            Some(p) => first_named(views(children@), name@) == Some(p@) && final(queue)@ == old(queue)@,
            None => first_named(views(children@), name@) is None && final(queue)@ == old(queue)@
                + children@,
        },
{
    let n = children.len();
    let mut i: usize = 0;
    proof {
        assert(views(children@).skip(0) =~= views(children@));
    }
    while i < n
        invariant
            n == children@.len(),
            i <= n,
            first_named(views(children@), name@) == first_named(views(children@).skip(i as int), name@),
        decreases n - i,
    {
        let ghost rest = views(children@).skip(i as int);
        proof {
            assert(rest[0] == children@[i as int]@);
            assert(rest.drop_first() =~= views(children@).skip(i + 1));
        }
        if has_file_name(children[i].as_str(), name) {
            return Some(children[i].clone());
        }
        i = i + 1;
    }
    let mut children = children;
    queue.append(&mut children);
    None
}

/// The unmatched paths are among the source paths, so they have names.
pub proof fn lemma_unmatched_named(src: Seq<Seq<char>>, dst: Seq<Seq<char>>)
    requires
        all_named(src),
    ensures
        all_named(unmatched(src, dst)),
    decreases src.len(),
{
    if src.len() > 0 {
        let t = src.drop_last();
        assert forall|i: int| 0 <= i < t.len() implies (#[trigger] file_name_of(t[i])) is Some by {
            assert(t[i] == src[i]);
        }
        lemma_unmatched_named(t, dst);
        let rest = unmatched(t, dst);
        let u = unmatched(src, dst);
        assert(file_name_of(src[src.len() - 1]) is Some);
        assert forall|i: int| 0 <= i < u.len() implies (#[trigger] file_name_of(u[i])) is Some by {
            if i < rest.len() {
                assert(u[i] == rest[i]);
                assert(file_name_of(rest[i]) is Some);
            } else {
                assert(u[i] == src.last());
            }
        }
    }
}

} // verus!

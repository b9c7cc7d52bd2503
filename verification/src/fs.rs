//! Paths as text: the name, stem and extension of a file, and joining.
//!
//! Paths are Unix paths. A path is split at `/`; empty parts and `.`
//! parts are dropped except a leading `.`, and the final part is the file
//! name unless it is `..`.

use crate::text::str_eq;
use crate::text::util::{replace, replace_all};
use vstd::prelude::*;
use vstd::string::{StrSliceExecFns, StringExecFns};

verus! {

/// Index of the last `c` in `s`, or -1.
pub open spec fn last_index_of(s: Seq<char>, c: char) -> int
    decreases s.len(),
{
    if s.len() == 0 {
        -1
    } else if s.last() == c {
        s.len() - 1
    } else {
        last_index_of(s.drop_last(), c)
    }
}

/// `last_index_of` finds the last occurrence.
pub proof fn lemma_last_index_of(s: Seq<char>, c: char)
    ensures
        -1 <= last_index_of(s, c) < s.len(),
        last_index_of(s, c) >= 0 ==> s[last_index_of(s, c)] == c,
        forall|j: int| last_index_of(s, c) < j < s.len() ==> #[trigger] s[j] != c,
    decreases s.len(),
{
    if s.len() > 0 && s.last() != c {
        let t = s.drop_last();
        lemma_last_index_of(t, c);
        assert forall|j: int| last_index_of(s, c) < j < s.len() implies #[trigger] s[j] != c by {
            if j < t.len() {
                assert(s[j] == t[j]);
            }
        }
    }
}

/// The last part of a path that is neither empty nor `.`, unless the path
/// ends in a leading `.` or in the root, in which case there is none.
pub open spec fn last_component(s: Seq<char>) -> Option<Seq<char>>
    decreases s.len(),
{
    if s.len() == 0 {
        None
    } else if s.last() == '/' {
        last_component(s.drop_last())
    } else {
        let k = last_index_of(s, '/');
        let seg = s.skip(k + 1);
        if seg == seq!['.'] {
            if k < 0 {
                None
            } else {
                proof {
                    lemma_last_index_of(s, '/');
                }
                last_component(s.take(k + 1))
            }
        } else {
            Some(seg)
        }
    }
}

/// The file name of a path: its final part, unless that is `..`.
pub open spec fn file_name_of(p: Seq<char>) -> Option<Seq<char>> {
    match last_component(p) {
        Some(seg) => if seg == seq!['.', '.'] {
            None
        } else {
            Some(seg)
        },
        None => None,
    }
}

/// The stem of a file name: up to its last `.`, unless that `.` is the
/// first character or there is none.
pub open spec fn stem_of(name: Seq<char>) -> Seq<char> {
    let d = last_index_of(name, '.');
    if d <= 0 {
        name
    } else {
        name.take(d)
    }
}

/// The extension of a file name: after its last `.`, unless that `.` is
/// the first character or there is none.
pub open spec fn ext_of(name: Seq<char>) -> Option<Seq<char>> {
    let d = last_index_of(name, '.');
    if d <= 0 {
        None
    } else {
        Some(name.skip(d + 1))
    }
}

/// The file stem of a path.
pub open spec fn file_stem_of(p: Seq<char>) -> Option<Seq<char>> {
    match file_name_of(p) {
        Some(name) => Some(stem_of(name)),
        None => None,
    }
}

/// The extension of a path.
pub open spec fn file_ext_of(p: Seq<char>) -> Option<Seq<char>> {
    match file_name_of(p) {
        Some(name) => ext_of(name),
        None => None,
    }
}

/// `p2` appended to `p1`: `p2` itself when it is absolute, else joined
/// with a `/` unless `p1` is empty or already ends in one.
pub open spec fn join_of(p1: Seq<char>, p2: Seq<char>) -> Seq<char> {
    if p2.len() > 0 && p2[0] == '/' {
        p2
    } else if p1.len() == 0 || p1.last() == '/' {
        p1 + p2
    } else {
        p1 + seq!['/'] + p2
    }
}

/// A file name with an extension is its stem, a dot and the extension.
pub proof fn law_stem_dot_ext(p: Seq<char>)
    requires
        file_ext_of(p) is Some,
    ensures
        file_name_of(p) is Some,
        file_stem_of(p).unwrap() + seq!['.'] + file_ext_of(p).unwrap() == file_name_of(p).unwrap(),
{
    let name = file_name_of(p).unwrap();
    let d = last_index_of(name, '.');
    lemma_last_index_of(name, '.');
    assert(name.take(d) + seq!['.'] + name.skip(d + 1) =~= name);
}

/// `s` without the separators and the `.` parts at its end; a root `/`
/// or a leading `.` stays.
pub open spec fn trim_end_parts(s: Seq<char>) -> Seq<char>
    decreases s.len(),
{
    if s.len() <= 1 {
        s
    } else if s.last() == '/' {
        trim_end_parts(s.drop_last())
    } else if s.last() == '.' && s[s.len() - 2] == '/' {
        trim_end_parts(s.drop_last())
    } else {
        s
    }
}

/// The parent directory of a path that has a file name: what comes
/// before its final part, without the separators and `.` parts at the
/// end.
pub open spec fn parent_text(s: Seq<char>) -> Seq<char>
    decreases s.len(),
{
    if s.len() == 0 {
        s
    } else if s.last() == '/' {
        parent_text(s.drop_last())
    } else {
        let k = last_index_of(s, '/');
        if s.skip(k + 1) == seq!['.'] && k >= 0 {
            proof {
                lemma_last_index_of(s, '/');
            }
            parent_text(s.take(k + 1))
        } else {
            trim_end_parts(s.take(k + 1))
        }
    }
}

/// The parent directory that the standard library gives for a path
/// (`Path::parent`).
pub uninterp spec fn path_parent(p: Seq<char>) -> Option<Seq<char>>;

/// `Path::parent` from the standard library, as text: the path without
/// its final component, on a Unix target. Where the path has a file name
/// the parent is stated: what comes before the final part, without the
/// separators and `.` parts at its end (`/tmp/a.json` gives `/tmp`,
/// `a.json` gives the empty path). For the other paths (the root, the
/// empty path, a path that ends in `..` or is a lone `.`) the contract
/// only names the result `path_parent`.
#[verifier::external_body]
pub(crate) fn parent_of(p: &str) -> (r: Option<String>)
    ensures
        match r {
            Some(q) => path_parent(p@) == Some(q@),
            None => path_parent(p@) is None,
        },
        file_name_of(p@) is Some ==> r is Some && r.unwrap()@ == parent_text(p@),
{
    match std::path::Path::new(p).parent() {
        Some(q) => Some(q.to_string_lossy().into_owned()),
        None => None,
    }
}

/// Character range of the file name of `p`.
fn file_name_range(p: &str) -> (r: Option<(usize, usize)>)
    ensures
        match r {
            Some((a, b)) => a <= b <= p@.len() && file_name_of(p@) == Some(p@.subrange(a as int, b as int)),
            None => file_name_of(p@) is None,
        },
{
    let n = p.unicode_len();
    let mut j: usize = n;
    assert(p@.take(n as int) =~= p@);
    loop
        invariant
            n == p@.len(),
            j <= n,
            last_component(p@) == last_component(p@.take(j as int)),
        decreases j,
    {
        let ghost j0 = j;
        while j > 0 && p.get_char(j - 1) == '/'
            invariant
                n == p@.len(),
                j <= j0 <= n,
                last_component(p@) == last_component(p@.take(j as int)),
            decreases j,
        {
            assert(p@.take(j as int).drop_last() =~= p@.take(j - 1));
            j = j - 1;
        }
        if j == 0 {
            assert(p@.take(0) =~= Seq::<char>::empty());
            return None;
        }
        let mut k: usize = j;
        while k > 0 && p.get_char(k - 1) != '/'
            invariant
                n == p@.len(),
                k <= j <= n,
                forall|i: int| k <= i < j ==> #[trigger] p@[i] != '/',
            decreases k,
        {
            k = k - 1;
        }
        let ghost s = p@.take(j as int);
        proof {
            assert(s.last() != '/');
            lemma_last_index_of(s, '/');
            let li = last_index_of(s, '/');
            if k > 0 {
                assert(s[k - 1] == '/');
                if li > k - 1 {
                    assert(s[li] == p@[li]);
                }
                if li < k - 1 {
                    assert(s[k - 1] != '/');
                }
            } else {
                if li >= 0 {
                    assert(s[li] == p@[li]);
                }
            }
            assert(li + 1 == k);
            assert(s.skip(k as int) =~= p@.subrange(k as int, j as int));
        }
        if j - k == 1 && p.get_char(k) == '.' {
            assert(s.skip(k as int) =~= seq!['.']);
            if k == 0 {
                return None;
            }
            proof {
                assert(s.take(k as int) =~= p@.take(k as int));
            }
            j = k;
        } else {
            let ghost seg = p@.subrange(k as int, j as int);
            assert(seg != seq!['.']) by {
                if seg =~= seq!['.'] {
                    assert(seg.len() == 1);
                    assert(seg[0] == p@[k as int]);
                }
            }
            if j - k == 2 && p.get_char(k) == '.' && p.get_char(k + 1) == '.' {
                assert(seg =~= seq!['.', '.']);
                return None;
            }
            assert(seg != seq!['.', '.']) by {
                if seg =~= seq!['.', '.'] {
                    assert(seg[0] == p@[k as int] && seg[1] == p@[k + 1]);
                }
            }
            return Some((k, j));
        }
    }
}

/// Character range of the last `.` of `name`, or none.
fn last_dot(name: &str) -> (d: Option<usize>)
    ensures
        match d {
            Some(i) => i == last_index_of(name@, '.') && i < name@.len(),
            None => last_index_of(name@, '.') < 0,
        },
{
    proof {
        lemma_last_index_of(name@, '.');
    }
    let n = name.unicode_len();
    let mut i: usize = n;
    while i > 0
        invariant
            n == name@.len(),
            i <= n,
            forall|j: int| i <= j < n ==> #[trigger] name@[j] != '.',
            -1 <= last_index_of(name@, '.') < n,
            last_index_of(name@, '.') >= 0 ==> name@[last_index_of(name@, '.')] == '.',
            forall|j: int| last_index_of(name@, '.') < j < n ==> #[trigger] name@[j] != '.',
        decreases i,
    {
        if name.get_char(i - 1) == '.' {
            return Some(i - 1);
        }
        i = i - 1;
    }
    None
}

/// The path as text.
pub fn to_str(p: &str) -> (r: &str)
    ensures
        r@ == p@,
{
    p
}

/// The path as an owned string.
pub fn to_string(p: &str) -> (r: String)
    ensures
        r@ == p@,
{
    to_str(p).to_owned()
}

/// Whether the file name of `p` is `name`.
pub fn has_file_name(p: &str, name: &str) -> (r: bool)
    ensures
        r == (file_name_of(p@) == Some(name@)),
{
    match file_name_range(p) {
        Some((a, b)) => str_eq(p.substring_char(a, b), name),
        None => false,
    }
}

/// The file name of a path; the path must have one.
pub fn file_name(p: &str) -> (r: &str)
    requires
        file_name_of(p@) is Some,
    ensures
        Some(r@) == file_name_of(p@),
{
    let (a, b) = file_name_range(p).unwrap();
    p.substring_char(a, b)
}

/// The file name of a path, owned; the path must have one.
pub fn file_name_owned(p: &str) -> (r: String)
    requires
        file_name_of(p@) is Some,
    ensures
        Some(r@) == file_name_of(p@),
{
    file_name(p).to_owned()
}

/// The extension of a path, without the dot (`jpg`, not `.jpg`); the path
/// must have one.
pub fn file_ext(p: &str) -> (r: &str)
    requires
        file_ext_of(p@) is Some,
    ensures
        Some(r@) == file_ext_of(p@),
{
    let name = file_name(p);
    let len = name.unicode_len();
    let d = last_dot(name).unwrap();
    name.substring_char(d + 1, len)
}

/// The extension of a path, owned; the path must have one.
pub fn file_ext_owned(p: &str) -> (r: String)
    requires
        file_ext_of(p@) is Some,
    ensures
        Some(r@) == file_ext_of(p@),
{
    file_ext(p).to_owned()
}

/// The file stem of a path (its file name without the extension); the
/// path must have a file name.
pub fn file_stem(p: &str) -> (r: &str)
    requires
        file_name_of(p@) is Some,
    ensures
        Some(r@) == file_stem_of(p@),
{
    let name = file_name(p);
    match last_dot(name) {
        Some(d) => {
            if d == 0 {
                name
            } else {
                name.substring_char(0, d)
            }
        },
        None => name,
    }
}

/// The file stem of a path, owned; the path must have a file name.
pub fn file_stem_owned(p: &str) -> (r: String)
    requires
        file_name_of(p@) is Some,
    ensures
        Some(r@) == file_stem_of(p@),
{
    file_stem(p).to_owned()
}

/// The path with `s` appended to its file stem, keeping the extension and
/// the directory; the path must have an extension.
pub fn file_name_append(p: &str, s: &str) -> (r: String)
    requires
        file_ext_of(p@) is Some,
    ensures
        r@ == join_of(
            parent_text(p@),
            file_stem_of(p@).unwrap() + s@ + seq!['.'] + file_ext_of(p@).unwrap(),
        ),
{
    let stem = file_stem(p);
    let ext = file_ext(p);
    let mut name = stem.to_owned();
    name.append(s);
    name.append(".");
    name.append(ext);
    proof {
        reveal_strlit(".");
    }
    let parent = parent_of(p).unwrap();
    join(parent.as_str(), name.as_str())
}

/// `p2` appended to `p1` as `PathBuf::push` does it: `p2` when it is
/// absolute, else joined with `/` unless `p1` is empty or ends in `/`.
pub fn join(p1: &str, p2: &str) -> (r: String)
    ensures
        r@ == join_of(p1@, p2@),
{
    let n1 = p1.unicode_len();
    let n2 = p2.unicode_len();
    if n2 > 0 && p2.get_char(0) == '/' {
        return p2.to_owned();
    }
    let mut r = p1.to_owned();
    if !(n1 == 0 || p1.get_char(n1 - 1) == '/') {
        r.append("/");
        proof {
            reveal_strlit("/");
        }
    }
    r.append(p2);
    r
}

/// The path with every match of `src` replaced by `dst`.
pub fn path_replace(path: &str, src: &str, dst: &str) -> (r: String)
    ensures
        r@ == replace_all(path@, src@, dst@),
{
    replace(path, src, dst)
}

/// The extension of a path, if it has one.
pub fn file_ext_opt(p: &str) -> (r: Option<&str>)
    ensures
        match r {
            Some(e) => file_ext_of(p@) == Some(e@),
            None => file_ext_of(p@) is None,
        },
{
    match file_name_range(p) {
        Some((a, b)) => {
            let name = p.substring_char(a, b);
            match last_dot(name) {
                Some(d) => {
                    if d == 0 {
                        None
                    } else {
                        let len = name.unicode_len();
                        Some(name.substring_char(d + 1, len))
                    }
                },
                None => None,
            }
        },
        None => None,
    }
}

/// Whether the path's extension is `ext`.
pub fn has_ext(p: &str, ext: &str) -> (r: bool)
    ensures
        r == (file_ext_of(p@) == Some(ext@)),
{
    match file_ext_opt(p) {
        Some(e) => crate::text::str_eq(e, ext),
        None => false,
    }
}

/// The path as directory text: with a `/` at the end.
pub fn to_dir_string(p: &str) -> (r: String)
    ensures
        r@ == if p@.len() > 0 && p@.last() == '/' {
            p@
        } else {
            p@.push('/')
        },
{
    let n = p.unicode_len();
    let mut r = p.to_owned();
    if !(n > 0 && p.get_char(n - 1) == '/') {
        r.append("/");
        proof {
            reveal_strlit("/");
            assert(p@ + "/"@ =~= p@.push('/'));
        }
    }
    r
}

} // verus!

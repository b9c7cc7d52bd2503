//! The decisions of a shelf of books read chapter by chapter from the
//! web: which chapters an update fetches, which a binding puts together,
//! and what a listing shows. Fetching, storing and copying files is left
//! to the caller, who hands over what it found.

use crate::fs::{join, join_of};
use crate::id::{digits, digits_string};
use crate::text::str_eq;
use vstd::prelude::*;
use vstd::string::{StrSliceExecFns, StringExecFns};

verus! {

/// A link of a catalog: the chapter's title and where the chapter is.
pub struct ChapterLink {
    pub text: String,
    pub url: Option<String>,
}

/// A link as text: its title and its address.
pub type LinkView = (Seq<char>, Option<Seq<char>>);

/// The text of an optional string.
pub open spec fn opt_view(o: Option<String>) -> Option<Seq<char>> {
    match o {
        Some(s) => Some(s@),
        None => None,
    }
}

/// The links of a catalog as text.
pub open spec fn link_views(s: Seq<ChapterLink>) -> Seq<LinkView> {
    s.map_values(|l: ChapterLink| (l.text@, opt_view(l.url)))
}

/// A book on the shelf.
pub struct BookInfo {
    pub title: String,
    pub url: String,
    pub tag: String,
    pub chapter_start: usize,
}

/// `t` occurs in `s`.
pub open spec fn contains_text(s: Seq<char>, t: Seq<char>) -> bool {
    exists|i: int| 0 <= i && i + t.len() <= s.len() && #[trigger] s.subrange(i, i + t.len()) == t
}

impl BookInfo {
    /// The first chapter not bound yet (chapters count from 1).
    pub fn chapter_start(&self) -> (r: usize)
        ensures
            r == if self.chapter_start < 1 {
                1
            } else {
                self.chapter_start
            },
    {
        if self.chapter_start < 1 {
            1
        } else {
            self.chapter_start
        }
    }

    /// Whether the book's title holds `title`.
    pub fn like(&self, title: &str) -> (r: bool)
        ensures
            r == contains_text(self.title@, title@),
    {
        let s = self.title.as_str();
        let n = s.unicode_len();
        let m = title.unicode_len();
        if m == 0 {
            proof {
                assert(self.title@.subrange(0, 0int + title@.len()) =~= title@);
            }
            return true;
        }
        if m > n {
            proof {
                assert forall|i: int| 0 <= i && i + m <= n implies #[trigger] s@.subrange(i, i + m)
                    != title@ by {}
            }
            return false;
        }
        let mut i: usize = 0;
        while i <= n - m
            invariant
                n == s@.len(),
                m == title@.len(),
                1 <= m <= n,
                i <= n - m + 1,
                s@ == self.title@,
                forall|j: int| 0 <= j < i ==> #[trigger] s@.subrange(j, j + m) != title@,
            decreases n - m + 1 - i,
        {
            if str_eq(s.substring_char(i, i + m), title) {
                return true;
            }
            i = i + 1;
        }
        false
    }
}

/// The catalog of a book: its title and the links to its chapters.
pub struct CatalogInfo {
    pub title: String,
    pub chapters: Vec<ChapterLink>,
}

impl CatalogInfo {
    /// The number just after the last chapter.
    pub fn chapter_end(&self) -> (r: usize)
        requires
            self.chapters@.len() < usize::MAX,
        ensures
            r == self.chapters@.len() + 1,
    {
        self.chapters.len() + 1
    }

    /// The number of chapters.
    pub fn total_chapter(&self) -> (r: usize)
        ensures
            r == self.chapters@.len(),
    {
        self.chapters.len()
    }
}

/// Whether a listing for `tag` (`new` where none is given) shows `book`.
pub fn listed(book: &BookInfo, tag: Option<&str>) -> (r: bool)
    ensures
        r == (book.tag@ == match tag {
            Some(t) => t@,
            None => "new"@,
        }),
{
    match tag {
        Some(t) => str_eq(book.tag.as_str(), t),
        None => str_eq(book.tag.as_str(), "new"),
    }
}

/// How many of `total` chapters are not bound yet in `book`.
pub open spec fn unbound_of(book: BookInfo, total: nat) -> nat {
    let start = if book.chapter_start < 1 {
        1
    } else {
        book.chapter_start as int
    };
    if total + 1 > start {
        (total + 1 - start) as nat
    } else {
        0
    }
}

/// What a listing shows of a book: how many chapters are not bound yet
/// and how many there are, both 0 where the book has no catalog stored.
pub fn chapter_counts(book: &BookInfo, catalog: Option<&CatalogInfo>) -> (r: (usize, usize))
    ensures
        r == match catalog {
            Some(c) => (unbound_of(*book, c.chapters@.len()) as usize, c.chapters@.len() as usize),
            None => (0usize, 0usize),
        },
{
    match catalog {
        Some(c) => {
            let start = book.chapter_start();
            let total = c.total_chapter();
            let unbound = if total >= start {
                total - start + 1
            } else {
                0
            };
            (unbound, total)
        },
        None => (0, 0),
    }
}

/// The stored links with the titles of the chapters whose files are
/// missing cleared, so that those chapters count as changed.
pub open spec fn marked(old: Seq<LinkView>, present: Seq<bool>) -> Seq<LinkView> {
    Seq::new(old.len(), |i: int| if present[i] { old[i] } else { (Seq::empty(), old[i].1) })
}

/// The numbers (from 1) of the first `k` chapters of `new` that differ
/// from the stored link of the same number or have none, in order.
pub open spec fn chapters_to_fetch(new: Seq<LinkView>, old: Seq<LinkView>, k: int) -> Seq<usize>
    decreases k,
{
    if k <= 0 {
        Seq::empty()
    } else {
        let d = chapters_to_fetch(new, old, k - 1);
        if k - 1 >= old.len() || new[k - 1] != old[k - 1] {
            d.push(k as usize)
        } else {
            d
        }
    }
}

/// The chapter numbers that `chapters_to_fetch` gives lie between 1 and
/// `k`, come in increasing order, and number `i + 1` is among them exactly
/// when `old` has no link `i` or a different one.
proof fn lemma_chapters_to_fetch(new: Seq<LinkView>, old: Seq<LinkView>, k: int)
    requires
        0 <= k <= new.len(),
        new.len() < usize::MAX,
    ensures
        forall|a: int|
            0 <= a < chapters_to_fetch(new, old, k).len() ==> 1 <= #[trigger] chapters_to_fetch(new, old, k)[a]
                <= k,
        forall|a: int, b: int|
            0 <= a < b < chapters_to_fetch(new, old, k).len() ==> #[trigger] chapters_to_fetch(new, old, k)[a]
                < #[trigger] chapters_to_fetch(new, old, k)[b],
        forall|i: int|
            0 <= i < k ==> (#[trigger] chapters_to_fetch(new, old, k).contains((i + 1) as usize) <==> (i
                >= old.len() || new[i] != old[i])),
    decreases k,
{
    if k > 0 {
        lemma_chapters_to_fetch(new, old, k - 1);
        let d = chapters_to_fetch(new, old, k - 1);
        let e = chapters_to_fetch(new, old, k);
        assert forall|i: int| 0 <= i < k implies (#[trigger] e.contains((i + 1) as usize) <==> (i >= old.len()
            || new[i] != old[i])) by {
            if e.contains((i + 1) as usize) {
                let a = choose|a: int| 0 <= a < e.len() && e[a] == (i + 1) as usize;
                if a < d.len() {
                    assert(e[a] == d[a]);
                    assert(d.contains((i + 1) as usize));
                }
            }
            if i < k - 1 {
                if d.contains((i + 1) as usize) {
                    let a = choose|a: int| 0 <= a < d.len() && d[a] == (i + 1) as usize;
                    assert(e[a] == d[a]);
                }
            } else if k - 1 >= old.len() || new[k - 1] != old[k - 1] {
                assert(e[d.len() as int] == k as usize);
            } else if e.contains((i + 1) as usize) {
                let a = choose|a: int| 0 <= a < e.len() && e[a] == (i + 1) as usize;
                assert(e[a] == d[a]);
            }
        }
    }
}

/// An update fetches, in increasing order, exactly the chapters whose
/// new link differs in title or address from the stored one (the title
/// of a chapter whose file is missing counting as empty), and those the
/// stored catalog lacks.
pub proof fn law_update_fetches_changed_chapters(new: Seq<ChapterLink>, old: Seq<ChapterLink>, present: Seq<bool>)
    requires
        present.len() == old.len(),
        new.len() < usize::MAX,
    ensures
        forall|a: int|
            0 <= a < chapters_to_fetch(link_views(new), marked(link_views(old), present), new.len() as int).len()
                ==> 1 <= #[trigger] chapters_to_fetch(
                link_views(new),
                marked(link_views(old), present),
                new.len() as int,
            )[a] <= new.len(),
        forall|a: int, b: int|
            0 <= a < b < chapters_to_fetch(link_views(new), marked(link_views(old), present), new.len() as int).len()
                ==> #[trigger] chapters_to_fetch(link_views(new), marked(link_views(old), present), new.len() as int)[a]
                < #[trigger] chapters_to_fetch(link_views(new), marked(link_views(old), present), new.len() as int)[b],
        forall|i: int|
            0 <= i < new.len() ==> (#[trigger] chapters_to_fetch(
                link_views(new),
                marked(link_views(old), present),
                new.len() as int,
            ).contains((i + 1) as usize) <==> (i >= old.len() || new[i].text@ != (if present[i] {
                old[i].text@
            } else {
                Seq::<char>::empty()
            }) || opt_view(new[i].url) != opt_view(old[i].url))),
{
    let nv = link_views(new);
    let ov = marked(link_views(old), present);
    lemma_chapters_to_fetch(nv, ov, new.len() as int);
    assert forall|i: int| 0 <= i < new.len() implies (#[trigger] chapters_to_fetch(nv, ov, new.len() as int).contains(
        (i + 1) as usize,
    ) <==> (i >= old.len() || new[i].text@ != (if present[i] {
        old[i].text@
    } else {
        Seq::<char>::empty()
    }) || opt_view(new[i].url) != opt_view(old[i].url))) by {
        assert(nv[i] == (new[i].text@, opt_view(new[i].url)));
        if i < old.len() {
            assert(ov[i] == (if present[i] {
                old[i].text@
            } else {
                Seq::<char>::empty()
            }, opt_view(old[i].url)));
        }
    }
}

/// What an update of a book does once its catalog has been fetched.
pub struct UpdatePlan {
    /// The title the book takes, where it had none.
    pub title: Option<String>,
    /// How many chapters fewer the fetched catalog has than the stored one.
    pub lost: usize,
    /// The chapters to fetch and save, by number, in order.
    pub chapters: Vec<usize>,
    /// Whether the fetched catalog replaces the stored one.
    pub store_catalog: bool,
}

/// Two links are the same.
fn same_link(a: &ChapterLink, text: &str, url: &Option<String>) -> (r: bool)
    ensures
        r == ((a.text@, opt_view(a.url)) == (text@, opt_view(*url))),
{
    let t = str_eq(a.text.as_str(), text);
    let u = match (&a.url, url) {
        (Some(x), Some(y)) => str_eq(x.as_str(), y.as_str()),
        (None, None) => true,
        _ => false,
    };
    t && u
}

/// The decisions of updating a book: `book_title` is its title, `new`
/// the catalog just fetched, `old` the one stored (empty where there is
/// none) and `present[i]` whether the file of chapter `i + 1` exists.
/// A book without a title takes the catalog's; every chapter that differs
/// from the stored link, or whose file is missing, or that the stored
/// catalog lacks, is fetched; the catalog is stored when any chapter is.
pub fn update_plan(book_title: &str, new: &CatalogInfo, old: &CatalogInfo, present: &Vec<bool>) -> (r:
    UpdatePlan)
    requires
        present@.len() == old.chapters@.len(),
        new.chapters@.len() < usize::MAX,
    ensures
        (r.title is Some) == (book_title@.len() == 0),
        r.title matches Some(t) ==> t@ == new.title@,
        r.lost == if old.chapters@.len() > new.chapters@.len() {
            old.chapters@.len() - new.chapters@.len()
        } else {
            0
        },
        r.chapters@ == chapters_to_fetch(
            link_views(new.chapters@),
            marked(link_views(old.chapters@), present@),
            new.chapters@.len() as int,
        ),
        r.store_catalog == (r.chapters@.len() > 0),
{
    let title = if book_title.unicode_len() == 0 {
        Some(new.title.clone())
    } else {
        None
    };
    let n = new.chapters.len();
    let m = old.chapters.len();
    let lost = if m > n {
        m - n
    } else {
        0
    };
    let ghost nv = link_views(new.chapters@);
    let ghost ov = marked(link_views(old.chapters@), present@);
    let mut chapters: Vec<usize> = Vec::new();
    let mut i: usize = 0;
    while i < n
        invariant
            n == new.chapters@.len(),
            m == old.chapters@.len(),
            present@.len() == m,
            n < usize::MAX,
            i <= n,
            nv == link_views(new.chapters@),
            ov == marked(link_views(old.chapters@), present@),
            chapters@ == chapters_to_fetch(nv, ov, i as int),
        decreases n - i,
    {
        let link = &new.chapters[i];
        let changed = if i >= m {
            true
        } else if present[i] {
            let o = &old.chapters[i];
            !same_link(link, o.text.as_str(), &o.url)
        } else {
            let o = &old.chapters[i];
            !same_link(link, "", &o.url)
        };
        proof {
            assert(nv[i as int] == (link.text@, opt_view(link.url)));
            if i < m {
                assert(ov[i as int] == if present@[i as int] {
                    link_views(old.chapters@)[i as int]
                } else {
                    (Seq::<char>::empty(), opt_view(old.chapters@[i as int].url))
                });
                reveal_strlit("");
                assert(""@ =~= Seq::<char>::empty());
            }
            assert(changed == (i >= ov.len() || nv[i as int] != ov[i as int]));
        }
        if changed {
            chapters.push(i + 1);
        }
        i = i + 1;
    }
    let store_catalog = chapters.len() > 0;
    UpdatePlan { title, lost, chapters, store_catalog }
}

/// `c` is an ASCII digit.
pub open spec fn is_digit(c: char) -> bool {
    '0' <= c && c <= '9'
}

/// The number that the decimal digits `s` write.
pub open spec fn digits_value(s: Seq<char>) -> int
    decreases s.len(),
{
    if s.len() == 0 {
        0
    } else {
        digits_value(s.drop_last()) * 10 + (s.last() as int - '0' as int)
    }
}

/// The digits of a number as `usize::from_str` reads it: after an
/// optional `+`.
pub open spec fn number_digits(s: Seq<char>) -> Seq<char> {
    if s.len() > 0 && s[0] == '+' {
        s.drop_first()
    } else {
        s
    }
}

/// What `usize::from_str` gives: the number when `s` is an optional `+`
/// followed by at least one digit and nothing else, and it fits.
pub open spec fn parsed_usize(s: Seq<char>) -> Option<usize> {
    let d = number_digits(s);
    if d.len() > 0 && (forall|i: int| 0 <= i < d.len() ==> is_digit(#[trigger] d[i])) && digits_value(d)
        <= usize::MAX {
        Some(digits_value(d) as usize)
    } else {
        None
    }
}

/// A longer run of digits writes no smaller a number.
proof fn lemma_digits_grow(d: Seq<char>, j: int)
    requires
        0 <= j <= d.len(),
        forall|i: int| 0 <= i < d.len() ==> is_digit(#[trigger] d[i]),
    ensures
        0 <= digits_value(d.take(j)) <= digits_value(d),
    decreases d.len() - j,
{
    if j < d.len() {
        lemma_digits_grow(d, j + 1);
        let t = d.take(j + 1);
        assert(t.drop_last() =~= d.take(j));
        assert(is_digit(t.last()));
    } else {
        assert(d.take(j) =~= d);
        lemma_digits_nonneg(d);
    }
}

/// Digits write a number that is not negative.
proof fn lemma_digits_nonneg(d: Seq<char>)
    requires
        forall|i: int| 0 <= i < d.len() ==> is_digit(#[trigger] d[i]),
    ensures
        digits_value(d) >= 0,
    decreases d.len(),
{
    if d.len() > 0 {
        let t = d.drop_last();
        assert forall|i: int| 0 <= i < t.len() implies is_digit(#[trigger] t[i]) by {
            assert(t[i] == d[i]);
        }
        lemma_digits_nonneg(t);
        assert(is_digit(d[d.len() - 1]));
    }
}

/// Reads a chapter or book number as `usize::from_str` does.
#[verifier::spinoff_prover]
#[verifier::rlimit(30)]
pub fn parse_number(s: &str) -> (r: Option<usize>)
    ensures
        r == parsed_usize(s@),
{
    let n = s.unicode_len();
    let first: usize = if n > 0 && s.get_char(0) == '+' {
        1
    } else {
        0
    };
    let ghost d = number_digits(s@);
    proof {
        assert(d =~= s@.skip(first as int));
    }
    if first == n {
        return None;
    }
    let mut acc: usize = 0;
    let mut i: usize = first;
    proof {
        assert(d.take(0) =~= Seq::<char>::empty());
    }
    while i < n
        invariant
            n == s@.len(),
            first <= i <= n,
            first < n,
            d == s@.skip(first as int),
            d == number_digits(s@),
            forall|k: int| 0 <= k < i - first ==> is_digit(#[trigger] d[k]),
            acc == digits_value(d.take(i - first)),
        decreases n - i,
    {
        let c = s.get_char(i);
        proof {
            assert(c == d[i - first]);
        }
        if c < '0' || c > '9' {
            assert(!is_digit(d[i - first]));
            return None;
        }
        let v: usize = (c as u32 - '0' as u32) as usize;
        let ghost t = d.take(i - first + 1);
        proof {
            assert(t.drop_last() =~= d.take(i - first));
            assert(t.last() == c);
        }
        match acc.checked_mul(10) {
            Some(x) => match x.checked_add(v) {
                Some(y) => {
                    acc = y;
                },
                None => {
                    proof {
                        assert(digits_value(t) > usize::MAX);
                        lemma_no_fit(d, i - first + 1);
                    }
                    return None;
                },
            },
            None => {
                proof {
                    assert(digits_value(t) > usize::MAX);
                    lemma_no_fit(d, i - first + 1);
                }
                return None;
            },
        }
        i = i + 1;
    }
    proof {
        assert(d.take(n - first) =~= d);
    }
    Some(acc)
}

/// A number too large in a prefix of the digits is too large for all of
/// them, or a character that is no digit comes later.
proof fn lemma_no_fit(d: Seq<char>, j: int)
    requires
        0 <= j <= d.len(),
        digits_value(d.take(j)) > usize::MAX,
    ensures
        parsed_usize_digits_fail(d),
{
    if forall|i: int| 0 <= i < d.len() ==> is_digit(#[trigger] d[i]) {
        lemma_digits_grow(d, j);
    }
}

/// The digits do not make a number that fits.
pub open spec fn parsed_usize_digits_fail(d: Seq<char>) -> bool {
    !(d.len() > 0 && (forall|i: int| 0 <= i < d.len() ==> is_digit(#[trigger] d[i])) && digits_value(d)
        <= usize::MAX)
}

/// Why a binding is refused.
#[derive(Debug, PartialEq, Eq, Structural)]
pub enum BindError {
    /// The book number does not read as a number, or no book has it.
    InvalidBook,
    /// The chapter number does not read as a number.
    InvalidChapter,
}

/// The chapters that binding a book puts together, as the range from the
/// first to the one after the last: `book` is the book found under the
/// number asked for (`None` where the number does not read or no book
/// has it), `chapter` the chapter asked to start from, and `total` the
/// number of chapters in its catalog. Without a chapter the binding
/// starts at the first chapter not bound yet; a chapter number below 1
/// counts as 1.
pub fn bind_range(book: Option<&BookInfo>, chapter: Option<&str>, total: usize) -> (r: Result<
    (usize, usize),
    BindError,
>)
    requires
        total < usize::MAX,
    ensures
        book is None ==> r == Err::<(usize, usize), BindError>(BindError::InvalidBook),
        book matches Some(b) ==> match chapter {
            Some(c) => match parsed_usize(c@) {
                Some(s) => r == Ok::<(usize, usize), BindError>(
                    (if s < 1 {
                        1
                    } else {
                        s
                    }, (total + 1) as usize),
                ),
                None => r == Err::<(usize, usize), BindError>(BindError::InvalidChapter),
            },
            None => r == Ok::<(usize, usize), BindError>(
                (if b.chapter_start < 1 {
                    1
                } else {
                    b.chapter_start
                }, (total + 1) as usize),
            ),
        },
{
    match book {
        None => Err(BindError::InvalidBook),
        Some(b) => {
            let start = match chapter {
                Some(c) => match parse_number(c) {
                    Some(s) => if s < 1 {
                        1
                    } else {
                        s
                    },
                    None => {
                        return Err(BindError::InvalidChapter);
                    },
                },
                None => b.chapter_start(),
            };
            Ok((start, total + 1))
        },
    }
}

/// `after` is `before` once the chapters up to `end` (not included) are
/// bound: the same title, address and tag, and `end` as the first
/// chapter not bound yet.
pub open spec fn bound_book(before: BookInfo, after: BookInfo, end: usize) -> bool {
    &&& after.title@ == before.title@
    &&& after.url@ == before.url@
    &&& after.tag@ == before.tag@
    &&& after.chapter_start == end
}

/// The decisions of binding a book: `book_id` is the number asked for
/// and `book` the book stored under it (`None` where there is none),
/// `chapter` the chapter asked to start from and `total` the number of
/// chapters in the book's catalog. A book number that does not read, or
/// that no book has, is refused, and so is a chapter number that does
/// not read. Where no chapter is left to bind, nothing is done
/// (`Ok(None)`); otherwise the answer is the range of chapters to put
/// together, from the first to the one after the last, with the book as
/// it is stored afterwards: its first chapter not bound yet is the end of
/// the range.
pub fn bind_plan(book_id: &str, book: Option<&BookInfo>, chapter: Option<&str>, total: usize) -> (r:
    Result<Option<(usize, usize, BookInfo)>, BindError>)
    requires
        total < usize::MAX,
    ensures
        parsed_usize(book_id@) is None || book is None ==> r matches Err(BindError::InvalidBook),
        parsed_usize(book_id@) is Some && book is Some ==> match bind_range_spec(book.unwrap(), chapter, total) {
            None => r matches Err(BindError::InvalidChapter),
            Some((s, e)) => if s >= e {
                r matches Ok(None)
            } else {
                r matches Ok(Some((s2, e2, b2))) && s2 == s && e2 == e && bound_book(*book.unwrap(), b2, e)
            },
        },
{
    if parse_number(book_id).is_none() {
        return Err(BindError::InvalidBook);
    }
    match book {
        None => Err(BindError::InvalidBook),
        Some(b) => match bind_range(Some(b), chapter, total) {
            Err(x) => Err(x),
            Ok((s, e)) => if s >= e {
                Ok(None)
            } else {
                let after = BookInfo {
                    title: b.title.clone(),
                    url: b.url.clone(),
                    tag: b.tag.clone(),
                    chapter_start: e,
                };
                Ok(Some((s, e, after)))
            },
        },
    }
}

/// The range that `bind_range` gives for a book that was found, or `None`
/// where the chapter number does not read.
pub open spec fn bind_range_spec(b: &BookInfo, chapter: Option<&str>, total: usize) -> Option<(usize, usize)> {
    match chapter {
        Some(c) => match parsed_usize(c@) {
            Some(s) => Some((if s < 1 { 1 } else { s }, (total + 1) as usize)),
            None => None,
        },
        None => Some((if b.chapter_start < 1 { 1 } else { b.chapter_start }, (total + 1) as usize)),
    }
}

/// The decimal digits of `n`.
pub open spec fn decimal_of(n: nat) -> Seq<char> {
    digits(n, 10)
}

/// `n` zeros.
pub open spec fn zeros(n: nat) -> Seq<char> {
    Seq::new(n, |i: int| '0')
}

/// The decimal digits of `n`, with zeros in front up to `width` digits.
pub open spec fn padded(n: nat, width: nat) -> Seq<char> {
    let d = decimal_of(n);
    if d.len() < width {
        zeros((width - d.len()) as nat) + d
    } else {
        d
    }
}

/// Where the text of a chapter is saved: `<book>/<chapter>.txt` in the
/// directory of pages, the chapter number written with four digits at
/// least.
pub open spec fn chapter_path(page_dir: Seq<char>, book_id: nat, chapter_id: nat) -> Seq<char> {
    join_of(page_dir, decimal_of(book_id) + seq!['/'] + padded(chapter_id, 4) + seq!['.', 't', 'x', 't'])
}

/// The paragraphs of a chapter as saved: each indented by a tab and
/// followed by an empty line.
pub open spec fn paragraphs_text(ps: Seq<Seq<char>>) -> Seq<char>
    decreases ps.len(),
{
    if ps.len() == 0 {
        Seq::empty()
    } else {
        paragraphs_text(ps.drop_last()) + seq!['\t'] + ps.last() + seq!['\n', '\n']
    }
}

/// The text of a chapter as saved: the line `第<n>章 <title>`, an empty
/// line, then the paragraphs.
pub open spec fn chapter_text_of(chapter_id: nat, title: Seq<char>, ps: Seq<Seq<char>>) -> Seq<char> {
    seq!['第'] + decimal_of(chapter_id) + seq!['章', ' '] + title + seq!['\n', '\n'] + paragraphs_text(ps)
}

/// The decimal digits of `n`, with zeros in front up to `width` digits.
pub fn padded_number(n: usize, width: usize) -> (r: String)
    ensures
        r@ == padded(n as nat, width as nat),
{
    let d = digits_string(n as u128, 10);
    let len = d.as_str().unicode_len();
    if len >= width {
        return d;
    }
    let mut r = String::from_str("");
    let mut i: usize = 0;
    proof {
        reveal_strlit("");
        assert(r@ =~= zeros(0));
    }
    while i < width - len
        invariant
            len < width,
            i <= width - len,
            r@ == zeros(i as nat),
        decreases width - len - i,
    {
        r.append("0");
        proof {
            reveal_strlit("0");
            assert(r@ =~= zeros((i + 1) as nat));
        }
        i = i + 1;
    }
    r.append(d.as_str());
    r
}

/// The file the text of a chapter is saved in.
pub fn chapter_file(page_dir: &str, book_id: usize, chapter_id: usize) -> (r: String)
    ensures
        r@ == chapter_path(page_dir@, book_id as nat, chapter_id as nat),
{
    let mut rel = digits_string(book_id as u128, 10);
    rel.append("/");
    let p = padded_number(chapter_id, 4);
    rel.append(p.as_str());
    rel.append(".txt");
    proof {
        reveal_strlit("/");
        reveal_strlit(".txt");
    }
    join(page_dir, rel.as_str())
}

/// The files of the chapters from `start` to `end` (not included), in
/// order: what binding a book puts together.
pub fn chapter_files(page_dir: &str, book_id: usize, start: usize, end: usize) -> (r: Vec<String>)
    ensures
        r@.len() == if start < end {
            end - start
        } else {
            0
        },
        forall|i: int| 0 <= i < r@.len() ==> (#[trigger] r@[i])@ == chapter_path(page_dir@, book_id as nat, (start + i) as nat),
{
    let mut r: Vec<String> = Vec::new();
    let mut id = start;
    while id < end
        invariant
            start <= end ==> start <= id <= end,
            start > end ==> id == start,
            r@.len() == id - start,
            forall|i: int| 0 <= i < r@.len() ==> (#[trigger] r@[i])@ == chapter_path(page_dir@, book_id as nat, (start + i) as nat),
        decreases end - id,
    {
        r.push(chapter_file(page_dir, book_id, id));
        id = id + 1;
    }
    r
}

/// The file a bound book is written to: its title with the extension
/// `txt`, in the directory of texts.
pub fn book_file(text_dir: &str, title: &str) -> (r: String)
    ensures
        r@ == join_of(text_dir@, title@ + seq!['.', 't', 'x', 't']),
{
    let mut name = String::from_str(title);
    name.append(".txt");
    proof {
        reveal_strlit(".txt");
    }
    join(text_dir, name.as_str())
}

/// The text of a chapter as saved: the line `第<n>章 <title>`, an empty
/// line, then each paragraph indented by a tab and followed by an empty
/// line.
pub fn chapter_text(chapter_id: usize, title: &str, paragraphs: &Vec<String>) -> (r: String)
    ensures
        r@ == chapter_text_of(chapter_id as nat, title@, crate::text::order::views(paragraphs@)),
{
    let mut r = String::from_str("第");
    let d = digits_string(chapter_id as u128, 10);
    r.append(d.as_str());
    r.append("章 ");
    r.append(title);
    r.append("\n\n");
    proof {
        reveal_strlit("第");
        reveal_strlit("章 ");
        reveal_strlit("\n\n");
        reveal_strlit("\t");
        assert(r@ =~= chapter_text_of(chapter_id as nat, title@, Seq::empty()));
    }
    let ghost ps = crate::text::order::views(paragraphs@);
    let n = paragraphs.len();
    let mut i: usize = 0;
    proof {
        assert(ps.take(0) =~= Seq::<Seq<char>>::empty());
    }
    while i < n
        invariant
            n == paragraphs@.len(),
            i <= n,
            ps == crate::text::order::views(paragraphs@),
            r@ == chapter_text_of(chapter_id as nat, title@, ps.take(i as int)),
        decreases n - i,
    {
        r.append("\t");
        r.append(paragraphs[i].as_str());
        r.append("\n\n");
        proof {
            reveal_strlit("\t");
            reveal_strlit("\n\n");
            assert(ps.take(i + 1).drop_last() =~= ps.take(i as int));
            assert(ps.take(i + 1).last() == paragraphs@[i as int]@);
            assert(r@ =~= chapter_text_of(chapter_id as nat, title@, ps.take(i + 1)));
        }
        i = i + 1;
    }
    proof {
        assert(ps.take(n as int) =~= ps);
    }
    r
}

/// How many times `h` occurs in `s`.
pub open spec fn count_of(s: Seq<Seq<char>>, h: Seq<char>) -> nat
    decreases s.len(),
{
    if s.len() == 0 {
        0
    } else {
        count_of(s.drop_last(), h) + if s.last() == h {
            1nat
        } else {
            0nat
        }
    }
}

/// What a ranking of hosts holds: each host once, with the number of
/// books it serves, the hosts with more books first.
pub open spec fn is_ranking(hosts: Seq<Seq<char>>, r: Seq<(String, usize)>) -> bool {
    &&& forall|i: int| 0 <= i < r.len() ==> (#[trigger] r[i]).1 == count_of(hosts, r[i].0@)
    &&& forall|i: int| 0 <= i < r.len() ==> (#[trigger] r[i]).1 > 0
    &&& forall|i: int, j: int| 0 <= i < j < r.len() ==> (#[trigger] r[i]).0@ != (#[trigger] r[j]).0@
    &&& forall|k: int| 0 <= k < hosts.len() ==> #[trigger] holds_host(r, hosts[k])
    &&& forall|i: int, j: int| 0 <= i < j < r.len() ==> (#[trigger] r[i]).1 >= (#[trigger] r[j]).1
}

/// `h` is one of the hosts of a ranking.
pub open spec fn holds_host(r: Seq<(String, usize)>, h: Seq<char>) -> bool {
    exists|i: int| 0 <= i < r.len() && (#[trigger] r[i]).0@ == h
}

/// A host occurs no more often than there are hosts.
proof fn lemma_count_le(s: Seq<Seq<char>>, h: Seq<char>)
    ensures
        count_of(s, h) <= s.len(),
    decreases s.len(),
{
    if s.len() > 0 {
        lemma_count_le(s.drop_last(), h);
    }
}

/// Counting one more host.
proof fn lemma_count_push(s: Seq<Seq<char>>, x: Seq<char>, h: Seq<char>)
    ensures
        count_of(s.push(x), h) == count_of(s, h) + if x == h {
            1nat
        } else {
            0nat
        },
{
    assert(s.push(x).drop_last() =~= s);
}

/// The hosts, each once in the order first met, with the number of times
/// each occurs.
fn host_counts(hosts: &Vec<String>) -> (entries: Vec<(String, usize)>)
    requires
        hosts@.len() < usize::MAX,
    ensures
        forall|a: int|
            0 <= a < entries@.len() ==> (#[trigger] entries@[a]).1 == count_of(
                crate::text::order::views(hosts@),
                entries@[a].0@,
            ),
        forall|a: int| 0 <= a < entries@.len() ==> (#[trigger] entries@[a]).1 > 0,
        forall|a: int, b: int|
            0 <= a < b < entries@.len() ==> (#[trigger] entries@[a]).0@ != (#[trigger] entries@[b]).0@,
        forall|k: int|
            0 <= k < hosts@.len() ==> #[trigger] holds_host(entries@, crate::text::order::views(hosts@)[k]),
{
    let ghost hs = crate::text::order::views(hosts@);
    let n = hosts.len();
    let mut entries: Vec<(String, usize)> = Vec::new();
    let mut i: usize = 0;
    while i < n
        invariant
            n == hosts@.len(),
            n < usize::MAX,
            i <= n,
            hs == crate::text::order::views(hosts@),
            forall|a: int|
                0 <= a < entries@.len() ==> (#[trigger] entries@[a]).1 == count_of(hs.take(i as int), entries@[a].0@),
            forall|a: int| 0 <= a < entries@.len() ==> (#[trigger] entries@[a]).1 > 0,
            forall|a: int, b: int|
                0 <= a < b < entries@.len() ==> (#[trigger] entries@[a]).0@ != (#[trigger] entries@[b]).0@,
            forall|k: int|
                0 <= k < i ==> exists|a: int| 0 <= a < entries@.len() && (#[trigger] entries@[a]).0@ == #[trigger] hs[k],
            forall|h: Seq<char>|
                #[trigger] count_of(hs.take(i as int), h) > 0 ==> exists|a: int|
                    0 <= a < entries@.len() && (#[trigger] entries@[a]).0@ == h,
        decreases n - i,
    {
        let h = &hosts[i];
        let ghost before = entries@;
        proof {
            assert(hs.take(i + 1) =~= hs.take(i as int).push(h@));
        }
        let m = entries.len();
        let mut j: usize = 0;
        while j < m && !str_eq(entries[j].0.as_str(), h.as_str())
            invariant
                m == entries@.len(),
                j <= m,
                forall|a: int| 0 <= a < j ==> (#[trigger] entries@[a]).0@ != h@,
            decreases m - j,
        {
            j = j + 1;
        }
        proof {
            assert forall|x: Seq<char>| true implies #[trigger] count_of(hs.take(i + 1), x) == count_of(
                hs.take(i as int),
                x,
            ) + if h@ == x {
                1nat
            } else {
                0nat
            } by {
                lemma_count_push(hs.take(i as int), h@, x);
            }
        }
        if j < m {
            let c = entries[j].1;
            proof {
                assert(c == count_of(hs.take(i as int), h@));
                lemma_count_le(hs.take(i as int), h@);
            }
            let key = entries[j].0.clone();
            entries.set(j, (key, c + 1));
        } else {
            proof {
                assert(count_of(hs.take(i as int), h@) == 0) by {
                    if count_of(hs.take(i as int), h@) > 0 {
                        let a = choose|a: int| 0 <= a < entries@.len() && (#[trigger] entries@[a]).0@ == h@;
                    }
                }
            }
            entries.push((h.clone(), 1));
        }
        proof {
            assert forall|k: int| 0 <= k < i + 1 implies exists|a: int|
                0 <= a < entries@.len() && (#[trigger] entries@[a]).0@ == #[trigger] hs[k] by {
                if k < i {
                    let a = choose|a: int| 0 <= a < before.len() && (#[trigger] before[a]).0@ == hs[k];
                    assert(entries@[a].0@ == hs[k]);
                } else {
                    assert(entries@[j as int].0@ == hs[k]);
                }
            }
            assert forall|x: Seq<char>| #[trigger] count_of(hs.take(i + 1), x) > 0 implies exists|a: int|
                0 <= a < entries@.len() && (#[trigger] entries@[a]).0@ == x by {
                if x == h@ {
                    assert(entries@[j as int].0@ == x);
                } else {
                    assert(count_of(hs.take(i + 1), x) == count_of(hs.take(i as int), x));
                    let a = choose|a: int| 0 <= a < before.len() && (#[trigger] before[a]).0@ == x;
                    assert(entries@[a].0@ == x);
                }
            }
        }
        i = i + 1;
    }
    proof {
        assert(hs.take(n as int) =~= hs);
        assert forall|k: int| 0 <= k < hosts@.len() implies #[trigger] holds_host(
            entries@,
            crate::text::order::views(hosts@)[k],
        ) by {
            assert(hs[k] == crate::text::order::views(hosts@)[k]);
            let a = choose|a: int| 0 <= a < entries@.len() && (#[trigger] entries@[a]).0@ == hs[k];
            assert(entries@[a].0@ == crate::text::order::views(hosts@)[k]);
        }
    }
    entries
}

/// How many entries are not taken yet.
spec fn untaken(s: Seq<bool>) -> nat
    decreases s.len(),
{
    if s.len() == 0 {
        0
    } else {
        untaken(s.drop_last()) + if s.last() {
            0nat
        } else {
            1nat
        }
    }
}

/// Taking one more entry leaves one fewer.
proof fn lemma_take_one(s: Seq<bool>, b: int)
    requires
        0 <= b < s.len(),
        !s[b],
    ensures
        untaken(s.update(b, true)) + 1 == untaken(s),
    decreases s.len(),
{
    let t = s.update(b, true);
    if b == s.len() - 1 {
        assert(t.drop_last() =~= s.drop_last());
    } else {
        lemma_take_one(s.drop_last(), b);
        assert(t.drop_last() =~= s.drop_last().update(b, true));
    }
}

/// The hosts of the books on the shelf, each once with the number of
/// books it serves, the hosts with more books first; `hosts` holds the
/// host of each book.
pub fn host_ranking(hosts: &Vec<String>) -> (r: Vec<(String, usize)>)
    requires
        hosts@.len() < usize::MAX,
    ensures
        is_ranking(crate::text::order::views(hosts@), r@),
{
    let ghost hs = crate::text::order::views(hosts@);
    let entries = host_counts(hosts);
    let m = entries.len();
    let mut taken: Vec<bool> = Vec::new();
    while taken.len() < m
        invariant
            taken@.len() <= m,
            forall|b: int| 0 <= b < taken@.len() ==> !#[trigger] taken@[b],
        decreases m - taken@.len(),
    {
        taken.push(false);
    }
    let mut order: Vec<usize> = Vec::new();
    let mut done = false;
    while !done
        invariant
            m == entries@.len(),
            taken@.len() == m,
            forall|a: int| 0 <= a < order@.len() ==> (#[trigger] order@[a]) < m && taken@[order@[a] as int],
            forall|b: int| 0 <= b < m && #[trigger] taken@[b] ==> exists|a: int| 0 <= a < order@.len() && order@[a] == b,
            forall|a: int, c: int| 0 <= a < c < order@.len() ==> (#[trigger] order@[a]) != (#[trigger] order@[c]),
            forall|a: int, c: int|
                0 <= a < c < order@.len() ==> entries@[(#[trigger] order@[a]) as int].1 >= entries@[(
                #[trigger] order@[c]) as int].1,
            forall|a: int, b: int|
                0 <= a < order@.len() && 0 <= b < m && !#[trigger] taken@[b] ==> entries@[(
                #[trigger] order@[a]) as int].1 >= entries@[b].1,
            done ==> forall|b: int| 0 <= b < m ==> #[trigger] taken@[b],
        decreases untaken(taken@) + if done {
            0nat
        } else {
            1nat
        },
    {
        let mut best: usize = m;
        let mut b: usize = 0;
        while b < m
            invariant
                m == entries@.len(),
                taken@.len() == m,
                b <= m,
                best <= m,
                best == m ==> forall|x: int| 0 <= x < b ==> #[trigger] taken@[x],
                best < m ==> best < b && !taken@[best as int],
                best < m ==> forall|x: int| 0 <= x < b && !#[trigger] taken@[x] ==> entries@[x].1 <= entries@[best as int].1,
            decreases m - b,
        {
            if !taken[b] && (best == m || entries[b].1 > entries[best].1) {
                best = b;
            }
            b = b + 1;
        }
        if best == m {
            done = true;
        } else {
            let ghost before = taken@;
            let ghost old_order = order@;
            proof {
                lemma_take_one(taken@, best as int);
            }
            taken.set(best, true);
            order.push(best);
            proof {
                assert forall|x: int| 0 <= x < m && #[trigger] taken@[x] implies exists|a: int|
                    0 <= a < order@.len() && order@[a] == x by {
                    if x == best {
                        assert(order@[old_order.len() as int] == x);
                    } else {
                        assert(before[x]);
                        let a = choose|a: int| 0 <= a < old_order.len() && old_order[a] == x;
                        assert(order@[a] == x);
                    }
                }
                assert forall|a: int, c: int| 0 <= a < c < order@.len() implies (#[trigger] order@[a]) != (
                #[trigger] order@[c]) && entries@[order@[a] as int].1 >= entries@[order@[c] as int].1 by {
                    if c == old_order.len() {
                        assert(order@[a] == old_order[a]);
                        assert(before[old_order[a] as int]);
                        assert(!before[best as int]);
                    } else {
                        assert(order@[a] == old_order[a] && order@[c] == old_order[c]);
                    }
                }
                assert forall|a: int, x: int|
                    0 <= a < order@.len() && 0 <= x < m && !#[trigger] taken@[x] implies entries@[(
                    #[trigger] order@[a]) as int].1 >= entries@[x].1 by {
                    assert(!before[x]);
                    if a < old_order.len() {
                        assert(order@[a] == old_order[a]);
                    }
                }
            }
        }
    }
    let mut out: Vec<(String, usize)> = Vec::new();
    let n = order.len();
    let mut i: usize = 0;
    while i < n
        invariant
            n == order@.len(),
            m == entries@.len(),
            i <= n,
            out@.len() == i,
            forall|a: int| 0 <= a < n ==> (#[trigger] order@[a]) < m,
            forall|a: int|
                0 <= a < i ==> (#[trigger] out@[a]).0@ == entries@[order@[a] as int].0@ && out@[a].1
                    == entries@[order@[a] as int].1,
        decreases n - i,
    {
        let e = &entries[order[i]];
        out.push((e.0.clone(), e.1));
        i = i + 1;
    }
    proof {
        assert forall|k: int| 0 <= k < hs.len() implies #[trigger] holds_host(out@, hs[k]) by {
            assert(holds_host(entries@, hs[k]));
            let b = choose|b: int| 0 <= b < entries@.len() && (#[trigger] entries@[b]).0@ == hs[k];
            assert(taken@[b]);
            let a = choose|a: int| 0 <= a < order@.len() && order@[a] == b;
            assert(out@[a].0@ == hs[k]);
        }
        assert forall|x: int, y: int| 0 <= x < y < out@.len() implies (#[trigger] out@[x]).0@ != (
        #[trigger] out@[y]).0@ && out@[x].1 >= out@[y].1 by {
            assert(order@[x] != order@[y]);
            assert(entries@[order@[x] as int].1 >= entries@[order@[y] as int].1);
            if order@[x] < order@[y] {
                assert(entries@[order@[x] as int].0@ != entries@[order@[y] as int].0@);
            } else {
                assert(entries@[order@[y] as int].0@ != entries@[order@[x] as int].0@);
            }
        }
        assert forall|x: int| 0 <= x < out@.len() implies (#[trigger] out@[x]).1 == count_of(hs, out@[x].0@)
            && out@[x].1 > 0 by {
            assert(entries@[order@[x] as int].1 == count_of(hs, entries@[order@[x] as int].0@));
        }
    }
    out
}

/// After a binding, the book has no chapter of its catalog left to bind,
/// and every chapter that a later catalog adds is left to bind.
pub proof fn law_binding_leaves_nothing_unbound(before: BookInfo, after: BookInfo, total: nat, more: nat)
    requires
        bound_book(before, after, (total + 1) as usize),
        total < usize::MAX,
    ensures
        unbound_of(after, total) == 0,
        unbound_of(after, total + more) == more,
{
}

} // verus!

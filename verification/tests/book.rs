use rx_core::book::{
    bind_plan, bind_range, book_file, chapter_counts, chapter_file, chapter_files, chapter_text, listed,
    padded_number, parse_number, update_plan, BindError, BookInfo, CatalogInfo, ChapterLink,
};

fn book(title: &str, start: usize) -> BookInfo {
    BookInfo { title: title.to_string(), url: "http://x/b".to_string(), tag: "new".to_string(), chapter_start: start }
}

fn link(text: &str, url: Option<&str>) -> ChapterLink {
    ChapterLink { text: text.to_string(), url: url.map(|u| u.to_string()) }
}

fn catalog(title: &str, chapters: Vec<ChapterLink>) -> CatalogInfo {
    CatalogInfo { title: title.to_string(), chapters }
}

#[test]
fn book_chapter_start_is_at_least_one() {
    assert_eq!(book("a", 0).chapter_start(), 1);
    assert_eq!(book("a", 1).chapter_start(), 1);
    assert_eq!(book("a", 7).chapter_start(), 7);
}

#[test]
fn book_like_finds_part_of_the_title() {
    let b = book("三体 第一部", 1);
    assert!(b.like("三体"));
    assert!(b.like("第一部"));
    assert!(b.like(""));
    assert!(!b.like("第二部"));
    assert!(!b.like("三体 第一部 外传"));
}

#[test]
fn catalog_counts_chapters() {
    let c = catalog("t", vec![link("1", Some("u1")), link("2", None)]);
    assert_eq!(c.total_chapter(), 2);
    assert_eq!(c.chapter_end(), 3);
    assert_eq!(catalog("t", vec![]).chapter_end(), 1);
}

#[test]
fn update_plan_fetches_new_changed_and_missing_chapters() {
    let old = catalog("Old", vec![link("1", Some("u1")), link("2", Some("u2")), link("3", Some("u3"))]);
    let new = catalog(
        "New",
        vec![link("1", Some("u1")), link("2", Some("u2b")), link("3", Some("u3")), link("4", Some("u4"))],
    );
    let p = update_plan("", &new, &old, &vec![true, true, false]);
    assert_eq!(p.title, Some("New".to_string()));
    assert_eq!(p.lost, 0);
    assert_eq!(p.chapters, vec![2, 3, 4]);
    assert!(p.store_catalog);
}

#[test]
fn update_plan_of_an_unchanged_book_does_nothing() {
    let old = catalog("T", vec![link("1", Some("u1")), link("", Some("u2"))]);
    let new = catalog("T", vec![link("1", Some("u1")), link("", Some("u2"))]);
    let p = update_plan("Mine", &new, &old, &vec![true, false]);
    assert_eq!(p.title, None);
    assert_eq!(p.chapters, Vec::<usize>::new());
    assert!(!p.store_catalog);
}

#[test]
fn update_plan_counts_lost_chapters() {
    let old = catalog("T", vec![link("1", None), link("2", None), link("3", None)]);
    let new = catalog("T", vec![link("1", None)]);
    let p = update_plan("T", &new, &old, &vec![true, true, true]);
    assert_eq!(p.lost, 2);
    assert_eq!(p.chapters, Vec::<usize>::new());
    let p = update_plan("T", &new, &catalog("T", vec![]), &vec![]);
    assert_eq!(p.lost, 0);
    assert_eq!(p.chapters, vec![1]);
}

#[test]
fn parse_number_reads_as_from_str() {
    assert_eq!(parse_number("42"), Some(42));
    assert_eq!(parse_number("+7"), Some(7));
    assert_eq!(parse_number("007"), Some(7));
    assert_eq!(parse_number(""), None);
    assert_eq!(parse_number("+"), None);
    assert_eq!(parse_number("-1"), None);
    assert_eq!(parse_number("1a"), None);
    assert_eq!(parse_number(" 1"), None);
    assert_eq!(parse_number(&usize::MAX.to_string()), Some(usize::MAX));
    assert_eq!(parse_number("99999999999999999999999"), None);
    for s in ["0", "12", "+3", "x", "18446744073709551616", "٣"] {
        assert_eq!(parse_number(s), s.parse::<usize>().ok());
    }
}

#[test]
fn bind_range_from_the_book_or_the_chapter_asked_for() {
    let b = book("B", 3);
    assert_eq!(bind_range(Some(&b), None, 10), Ok((3, 11)));
    assert_eq!(bind_range(Some(&b), Some("5"), 10), Ok((5, 11)));
    assert_eq!(bind_range(Some(&b), Some("0"), 10), Ok((1, 11)));
    assert_eq!(bind_range(Some(&b), Some("x"), 10), Err(BindError::InvalidChapter));
    assert_eq!(bind_range(None, Some("x"), 10), Err(BindError::InvalidBook));
    assert_eq!(bind_range(Some(&book("B", 0)), None, 0), Ok((1, 1)));
}

#[test]
fn listing_shows_books_of_the_tag_with_their_counts() {
    let mut b = book("B", 3);
    assert!(listed(&b, None));
    assert!(listed(&b, Some("new")));
    assert!(!listed(&b, Some("done")));
    b.tag = "done".to_string();
    assert!(!listed(&b, None));
    let c = catalog("T", vec![link("1", None), link("2", None), link("3", None), link("4", None)]);
    assert_eq!(chapter_counts(&b, Some(&c)), (2, 4));
    assert_eq!(chapter_counts(&book("B", 0), Some(&c)), (4, 4));
    assert_eq!(chapter_counts(&book("B", 9), Some(&c)), (0, 4));
    assert_eq!(chapter_counts(&b, None), (0, 0));
}

#[test]
fn bind_plan_moves_the_start_only_when_chapters_are_bound() {
    let b = book("B", 3);
    match bind_plan("7", Some(&b), None, 10) {
        Ok(Some((s, e, after))) => {
            assert_eq!((s, e), (3, 11));
            assert_eq!(after.chapter_start, 11);
            assert_eq!((after.title.as_str(), after.url.as_str(), after.tag.as_str()), ("B", "http://x/b", "new"));
        }
        _ => panic!("expected a binding"),
    }
    assert!(matches!(bind_plan("7", Some(&book("B", 11)), None, 10), Ok(None)));
    assert!(matches!(bind_plan("7", Some(&b), Some("12"), 10), Ok(None)));
    assert!(matches!(bind_plan("7", Some(&b), Some("0"), 10), Ok(Some((1, 11, _)))));
    assert!(matches!(bind_plan("x", Some(&b), None, 10), Err(BindError::InvalidBook)));
    assert!(matches!(bind_plan("7", None, None, 10), Err(BindError::InvalidBook)));
    assert!(matches!(bind_plan("7", Some(&b), Some("two"), 10), Err(BindError::InvalidChapter)));
}

#[test]
fn chapter_files_are_laid_out_by_book_and_number() {
    assert_eq!(padded_number(7, 4), "0007");
    assert_eq!(padded_number(12345, 4), "12345");
    assert_eq!(padded_number(0, 0), "0");
    assert_eq!(chapter_file("/shelf/page", 3, 12), "/shelf/page/3/0012.txt");
    assert_eq!(chapter_file("/shelf/page/", 3, 12), format!("/shelf/page/{}/{:04}.txt", 3, 12));
    assert_eq!(
        chapter_files("/p", 2, 9, 12),
        vec!["/p/2/0009.txt".to_string(), "/p/2/0010.txt".to_string(), "/p/2/0011.txt".to_string()]
    );
    assert_eq!(chapter_files("/p", 2, 12, 12), Vec::<String>::new());
    assert_eq!(chapter_files("/p", 2, 13, 12), Vec::<String>::new());
    assert_eq!(book_file("/shelf/text", "三体"), "/shelf/text/三体.txt");
}

#[test]
fn chapter_text_has_a_title_line_and_indented_paragraphs() {
    let ps = vec!["一".to_string(), "二".to_string()];
    assert_eq!(chapter_text(5, "开始", &ps), "第5章 开始\n\n\t一\n\n\t二\n\n");
    assert_eq!(chapter_text(12, "t", &vec![]), format!("第{}章 {}\n\n", 12, "t"));
}

#[test]
fn host_ranking_counts_books_per_host_most_first() {
    let hosts: Vec<String> = ["a.com", "b.org", "a.com", "c.net", "b.org", "a.com"].iter().map(|s| s.to_string()).collect();
    let r = rx_core::book::host_ranking(&hosts);
    assert_eq!(r.len(), 3);
    assert_eq!(r[0], ("a.com".to_string(), 3));
    assert_eq!(r[1], ("b.org".to_string(), 2));
    assert_eq!(r[2], ("c.net".to_string(), 1));
    assert!(rx_core::book::host_ranking(&vec![]).is_empty());
}

#[test]
fn after_binding_nothing_is_left_unbound() {
    let c = catalog("T", vec![link("1", None), link("2", None), link("3", None)]);
    let b = book("B", 2);
    assert_eq!(chapter_counts(&b, Some(&c)), (2, 3));
    if let Ok(Some((_, _, after))) = bind_plan("1", Some(&b), None, c.total_chapter()) {
        assert_eq!(chapter_counts(&after, Some(&c)), (0, 3));
        let longer = catalog("T", vec![link("1", None), link("2", None), link("3", None), link("4", None)]);
        assert_eq!(chapter_counts(&after, Some(&longer)), (1, 4));
    } else {
        panic!("expected a binding");
    }
}

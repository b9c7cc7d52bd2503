use rx_core::dom::{find_charset, trim, visit_attrs, walk, DomData, DomNode, Document};
use rx_core::html::Node;
use rx_core::searcher::Searcher;

fn element(name: &str, text: &[&str], children: Vec<Node>) -> Node {
    let mut n = Node::new_element(name.to_string());
    n.text = text.iter().map(|s| s.to_string()).collect();
    n.children = children.into_iter().map(Box::new).collect();
    n
}

// body
//   h1 "Title"
//   div "ab" "cd"
//     h1 "Inner"
//     p "longest text here"
//   p
fn sample() -> Node {
    element(
        "body",
        &[],
        vec![
            element("h1", &["Title"], vec![]),
            element(
                "div",
                &["ab", "cd"],
                vec![
                    element("h1", &["Inner"], vec![]),
                    element("p", &["longest text here"], vec![]),
                ],
            ),
            element("p", &[], vec![]),
        ],
    )
}

fn names(nodes: &[Node]) -> Vec<String> {
    nodes.iter().map(|n| n.name.clone()).collect()
}

#[test]
fn walk_visits_in_document_order() {
    let root = sample();
    let mut seen = Vec::new();
    let all = root.walk(&mut |n: &Node| {
        seen.push(n.name.clone());
        true
    });
    assert!(all);
    assert_eq!(seen, vec!["body", "h1", "div", "h1", "p", "p"]);
}

#[test]
fn walk_stops_at_the_first_false() {
    let root = sample();
    let mut seen = Vec::new();
    let all = root.walk(&mut |n: &Node| {
        seen.push(n.name.clone());
        n.name != "div"
    });
    assert!(!all);
    assert_eq!(seen, vec!["body", "h1", "div"]);
}

#[test]
fn find_first_and_all() {
    let root = sample();
    let first = root.find_first(&|n: &Node| n.name == "p").unwrap();
    assert_eq!(first.text, vec!["longest text here".to_string()]);
    assert!(root.find_first(&|n: &Node| n.name == "table").is_none());
    let all = root.find_all(&|n: &Node| n.name == "p");
    assert_eq!(all.len(), 2);
    assert_eq!(all[0].text, vec!["longest text here".to_string()]);
    assert!(all[1].text.is_empty());
}

#[test]
fn find_all_h1_in_order() {
    let root = sample();
    let h1 = root.find_all_h1();
    assert_eq!(names(&h1), vec!["h1", "h1"]);
    assert_eq!(h1[0].text, vec!["Title".to_string()]);
    assert_eq!(h1[1].text, vec!["Inner".to_string()]);
}

#[test]
fn find_max_text_and_children() {
    let root = sample();
    let t = root.find_max_text().unwrap();
    assert_eq!(t.name, "p");
    assert_eq!(t.text_len(), "longest text here".len());
    let c = root.find_max_children().unwrap();
    assert_eq!(c.name, "body");
    let div = root.find_max(&|n: &Node| n.text.len()).unwrap();
    assert_eq!(div.name, "div");
}

#[test]
fn find_max_keeps_the_first_of_equal_keys() {
    let root = element("r", &[], vec![element("a", &["xy"], vec![]), element("b", &["zw"], vec![])]);
    assert_eq!(root.find_max_text().unwrap().name, "a");
}

#[test]
fn text_len_counts_bytes() {
    let n = element("p", &["ab", "中"], vec![]);
    assert_eq!(n.text_len(), 5);
    assert_eq!(Node::default().text_len(), 0);
}

#[test]
fn clone_copies_the_tree() {
    let root = sample();
    let copy = root.clone();
    assert_eq!(names(&copy.find_all(&|_n: &Node| true)), names(&root.find_all(&|_n: &Node| true)));
}

fn dom(data: DomData, children: Vec<DomNode>) -> DomNode {
    DomNode { data, children: children.into_iter().map(Box::new).collect() }
}

fn el(name: &str, attrs: &[(&str, &str)], children: Vec<DomNode>) -> DomNode {
    dom(
        DomData::Element(
            name.to_string(),
            attrs.iter().map(|(k, v)| (k.to_string(), v.to_string())).collect(),
        ),
        children,
    )
}

fn text(s: &str) -> DomNode {
    dom(DomData::Text(s.to_string()), vec![])
}

fn page(meta_content: &str) -> DomNode {
    dom(
        DomData::Document,
        vec![
            dom(DomData::Other, vec![]),
            el(
                "html",
                &[],
                vec![
                    el(
                        "head",
                        &[],
                        vec![
                            el("meta", &[("name", "x")], vec![]),
                            el("meta", &[("http-equiv", "Content-Type"), ("content", meta_content)], vec![]),
                        ],
                    ),
                    el("body", &[("class", "main"), ("class", "other")], vec![text("  hello \n"), text("   "), el("p", &[], vec![text("para")])]),
                ],
            ),
        ],
    )
}

#[test]
fn walk_builds_the_element_tree() {
    let d = page("text/html; charset=utf-8");
    let root = walk(&d);
    assert_eq!(root.name, "Document");
    assert_eq!(root.children.len(), 1);
    let html = &root.children[0];
    assert_eq!(html.name, "html");
    let body = &html.children[1];
    assert_eq!(body.text, vec!["hello".to_string()]);
    assert_eq!(body.attrs.get("class"), Some(&"other".to_string()));
    assert_eq!(body.attrs.len(), 1);
    assert_eq!(body.children[0].text, vec!["para".to_string()]);
}

#[test]
fn charset_is_found_in_meta_content() {
    let d = page("text/html; charset=gbk");
    assert_eq!(find_charset(&d), Some("GBK".to_string()));
    let doc = Document { dom: d };
    assert_eq!(doc.get_charset(), Some("GBK".to_string()));
    assert!(doc.needs_gbk());
    let d = page("text/html; charset=utf-8");
    assert_eq!(find_charset(&d), Some("UTF".to_string()));
    let d = page("text/html");
    assert_eq!(find_charset(&d), None);
    assert!(!Document { dom: d }.needs_gbk());
}

#[test]
fn visit_attrs_follows_the_path() {
    let d = page("text/html; charset=utf-8");
    let mut seen = Vec::new();
    let found = visit_attrs(&d, &["", "html", "head", "meta"], &mut |k: &str, v: &str| {
        seen.push(format!("{}={}", k, v));
        k == "content"
    });
    assert!(found);
    assert_eq!(seen, vec!["name=x", "http-equiv=Content-Type", "content=text/html; charset=utf-8"]);
    let mut count = 0;
    let found = visit_attrs(&d, &["", "html", "body"], &mut |_k: &str, _v: &str| {
        count += 1;
        false
    });
    assert!(!found);
    assert_eq!(count, 2);
    assert!(!visit_attrs(&d, &["html"], &mut |_k: &str, _v: &str| true));
    assert!(!visit_attrs(&d, &[], &mut |_k: &str, _v: &str| true));
}

#[test]
fn trim_matches_std() {
    for s in ["  a b  ", "\u{3000}x\u{a0}", "", "   ", "no", "\tline\n"] {
        assert_eq!(trim(s), s.trim());
    }
}

#[test]
fn searcher_narrows_addresses() {
    let contents = vec![1u8, 5, 2, 9, 5, 7, 0, 0, 0, 5];
    let mut s = Searcher::new(contents, 1);
    assert!(s.search(5));
    assert_eq!(s.addrs(), &vec![1, 4, 9]);
    assert!(s.search(7));
    assert_eq!(s.addrs(), &vec![4]);
    assert!(!s.search(42));
    assert_eq!(s.addrs(), &vec![4]);
    assert_eq!(s.values(), &vec![5, 7]);
    assert_eq!(s.offsets(4, 5), vec![0]);
    assert_eq!(s.offsets(4, 7), vec![1]);
}

#[test]
fn searcher_offsets_nearest_first() {
    let contents = vec![3u8, 3, 0, 3, 3];
    let mut s = Searcher::new(contents, 2);
    assert!(s.search(0));
    let offs = s.offsets(2, 3);
    assert_eq!(offs.len(), 4);
    let dist: Vec<i64> = offs.iter().map(|x| x.abs()).collect();
    assert_eq!(dist, vec![1, 1, 2, 2]);
    let mut sorted = offs.clone();
    sorted.sort();
    assert_eq!(sorted, vec![-2, -1, 1, 2]);
}

#[test]
fn find_first_is_the_head_of_find_all() {
    let root = sample();
    for name in ["h1", "p", "div", "body", "none"] {
        let first = root.find_first(&|n: &Node| n.name == name);
        let all = root.find_all(&|n: &Node| n.name == name);
        match first {
            Some(f) => {
                assert!(!all.is_empty());
                assert_eq!(f.name, all[0].name);
                assert_eq!(f.text, all[0].text);
            }
            None => assert!(all.is_empty()),
        }
    }
}

#[test]
fn searcher_candidates_only_narrow() {
    let contents = vec![4u8, 4, 1, 4, 2, 4];
    let mut s = Searcher::new(contents, 1);
    assert!(s.search(4));
    let before = s.addrs().clone();
    assert!(s.search(1));
    assert!(s.addrs().iter().all(|a| before.contains(a)));
    assert_eq!(s.addrs(), &vec![1, 3]);
}

#[test]
fn parse_builds_the_document_tree() {
    let page = b"<html><head><title>T</title></head><body><h1>Head</h1><p> one </p><p>two</p></body></html>";
    let doc = Document::parse(page);
    assert!(matches!(doc.dom.data, DomData::Document));
    assert_eq!(doc.get_charset(), None);
    let root = walk(&doc.dom);
    let h1 = root.find_all_h1();
    assert_eq!(h1.len(), 1);
    assert_eq!(h1[0].text, vec!["Head".to_string()]);
    let ps = root.find_all(&|n: &Node| n.name == "p");
    assert_eq!(ps.len(), 2);
    assert_eq!(ps[0].text, vec!["one".to_string()]);
}

#[test]
fn parse_decodes_a_gbk_page() {
    let mut page = b"<html><head><meta http-equiv=\"Content-Type\" content=\"text/html; charset=gbk\"></head><body><p>".to_vec();
    page.extend_from_slice(&[0xd6, 0xd0, 0xce, 0xc4]);
    page.extend_from_slice(b"</p></body></html>");
    let doc = Document::parse(&page);
    assert!(doc.needs_gbk());
    let root = walk(&doc.dom);
    let p = root.find_first(&|n: &Node| n.name == "p").unwrap();
    assert_eq!(p.text, vec!["中文".to_string()]);
}

#[test]
fn trim_agrees_with_std_on_every_white_space() {
    for u in 0u32..0x3100 {
        if let Some(c) = char::from_u32(u) {
            let s = format!("{c}x{c}");
            assert_eq!(trim(&s), s.trim(), "U+{u:04X}");
        }
    }
}

use rx_core::text::csv::{csv_rows_to_maps, split_tabs};
use rx_core::text::order::{sort_texts, str_lt};
use rx_core::text::util::{replace, replace_map};

fn strings(v: &[&str]) -> Vec<String> {
    v.iter().map(|s| s.to_string()).collect()
}

#[test]
fn test_all() {
    let src = "X+Y=Z\nX-Y=Z";
    let dst = "1+2=3\n1-2=3";
    let map = [
        ("X".to_string(), "1".to_string()),
        ("Y".to_string(), "2".to_string()),
        ("Z".to_string(), "3".to_string()),
    ];
    let txt2 = replace_map(&src, &map);
    assert_eq!(txt2, dst);
}

#[test]
fn replace_matches_std() {
    let cases = [
        ("aaaa", "aa", "b"),
        ("abcabc", "bc", ""),
        ("abc", "", "-"),
        ("", "", "x"),
        ("", "a", "x"),
        ("héllo wörld", "ö", "oe"),
        ("no match", "zz", "yy"),
    ];
    for (s, from, to) in cases {
        assert_eq!(replace(s, from, to), s.replace(from, to));
    }
}

#[test]
fn replace_map_applies_in_order() {
    let map = [
        ("a".to_string(), "b".to_string()),
        ("b".to_string(), "c".to_string()),
    ];
    assert_eq!(replace_map("ab", &map), "cc");
    assert_eq!(replace_map("ab", &[]), "ab");
}

#[test]
fn split_tabs_matches_std_split() {
    for line in ["a\tb\tc", "", "\t", "a\t\tb", "one", "x\ty\t", "ü\tß"] {
        let expected: Vec<String> = line.split('\t').map(|x| x.to_string()).collect();
        assert_eq!(split_tabs(line), expected);
    }
}

#[test]
fn split_then_join_gives_the_line_back() {
    for line in ["a\tb\tc", "", "\t\t", "name\tvalue"] {
        assert_eq!(split_tabs(line).join("\t"), line);
    }
}

#[test]
fn csv_rows_become_maps_under_titles() {
    let rows = vec![
        strings(&["id", "name", "age"]),
        strings(&["1", "Li", "30"]),
        strings(&["2", "Wang"]),
        strings(&[]),
    ];
    let maps = csv_rows_to_maps(&rows);
    assert_eq!(maps.len(), 3);
    assert_eq!(maps[0].get("id"), Some(&"1".to_string()));
    assert_eq!(maps[0].get("name"), Some(&"Li".to_string()));
    assert_eq!(maps[0].get("age"), Some(&"30".to_string()));
    assert_eq!(maps[1].get("name"), Some(&"Wang".to_string()));
    assert_eq!(maps[1].get("age"), None);
    assert_eq!(maps[2].len(), 0);
}

#[test]
fn csv_repeated_title_keeps_the_later_field() {
    let rows = vec![strings(&["k", "k"]), strings(&["first", "second"])];
    let maps = csv_rows_to_maps(&rows);
    assert_eq!(maps[0].len(), 1);
    assert_eq!(maps[0].get("k"), Some(&"second".to_string()));
}

#[test]
fn text_order_is_byte_order() {
    assert!(str_lt("a", "b"));
    assert!(str_lt("ab", "abc"));
    assert!(!str_lt("abc", "ab"));
    assert!(!str_lt("same", "same"));
    assert!(str_lt("", "a"));
    assert!(str_lt("Z", "a"));
    assert!(str_lt("z", "é"));
}

#[test]
fn sort_texts_matches_std_sort() {
    let v = strings(&["pear", "apple", "fig", "apple", "Banana", "", "éclair"]);
    let mut expected = v.clone();
    expected.sort();
    assert_eq!(sort_texts(&v), expected);
}

use rx_core::dir::{ancestor_nth, dir_stem_diff, search_step, try_ancestor_nth, DirTranslator, FileTranslator};
use rx_core::fs::{
    file_ext, file_ext_opt, file_ext_owned, has_ext, to_dir_string, file_name, file_name_append, file_name_owned, file_stem,
    file_stem_owned, join, path_replace, to_str, to_string,
};
use std::cell::RefCell;
use std::path::{Path, PathBuf};

const A_JSON: &str = "/tmp/a.json";

#[test]
fn fs_join_works() {
    let s1 = "/usr";
    let s2 = "bin";

    let p1 = "/usr/bin".to_string();
    let p2 = join(&s1, &s2);
    let _p3 = join(&"/usr", &"bin");
    let p3 = join(&s1, &"bin");

    assert_eq!(p1, p2);
    assert_eq!(p1, p3);
}

#[test]
fn fs_ext_works() {
    let ext = file_ext(&A_JSON);
    assert_eq!(ext, "json");
}

#[test]
fn fs_stem_works() {
    let name = file_name(&A_JSON);
    let stem = file_stem(&A_JSON);
    assert_eq!(name, "a.json");
    assert_eq!(stem, "a");
}

#[test]
fn fs_file_name_append_works() {
    let f2 = "/tmp/a_1.json".to_string();
    let p = file_name_append(&A_JSON, "_1");
    assert_eq!(f2, p);
}

#[test]
fn test_path_replace() {
    let path_before = "/path/to/snap/directory";
    let expected_path = "/path/to/img/directory";
    let result_path = path_replace(path_before, "snap", "img");
    assert_eq!(result_path, expected_path);

    let path_before = "/snap/path/to/snap/directory";
    let expected_path = "/img/path/to/img/directory";
    let result_path = path_replace(path_before, "snap", "img");
    assert_eq!(result_path, expected_path);

    let path_before = "/path/to/directory";
    let expected_path = "/path/to/directory";
    let result_path = path_replace(path_before, "snap", "img");
    assert_eq!(result_path, expected_path);
}

#[test]
fn file_ext_works() {
    let ext = file_ext_owned(&A_JSON);
    assert_eq!(ext, "json");
}

#[test]
fn file_stem_works() {
    let name = file_name_owned(&A_JSON);
    let stem = file_stem_owned(&A_JSON);
    assert_eq!(name, "a.json");
    assert_eq!(stem, "a");
}

#[test]
fn file_file_name_append_works() {
    let f2 = "/tmp/a_1.json".to_string();
    let p = file_name_append(&A_JSON, "_1");
    assert_eq!(f2, p);
}

#[test]
fn misc_join_works() {
    let s1 = "/usr";
    let s2 = "bin";

    let p1 = "/usr/bin".to_string();
    let p2 = join(&s1, &s2);
    let _p3 = join(&"/usr", &"bin");
    let p3 = join(&s1, &"bin");

    assert_eq!(p1, p2);
    assert_eq!(p1, p3);
}

#[test]
fn path_parts_match_std_path() {
    for p in [
        "/tmp/a.json",
        "a/b/c.tar.gz",
        "/x/.bashrc",
        "dir/",
        "a/./b.txt/.",
        "noext",
        "trailing.",
        "/a/b..c",
    ] {
        let path = Path::new(p);
        let name = path.file_name().map(|s| s.to_str().unwrap().to_string());
        assert_eq!(Some(file_name_owned(p)), name, "{}", p);
        let stem = path.file_stem().map(|s| s.to_str().unwrap().to_string());
        assert_eq!(Some(file_stem_owned(p)), stem, "{}", p);
        if let Some(ext) = path.extension() {
            assert_eq!(file_ext_owned(p), ext.to_str().unwrap(), "{}", p);
        }
    }
}

#[test]
fn join_matches_pathbuf_push() {
    for (a, b) in [("/usr", "bin"), ("/usr/", "bin"), ("", "x"), ("a", "/abs"), ("a/b", "c/d")] {
        let mut p = PathBuf::from(a);
        p.push(b);
        assert_eq!(join(a, b), p.to_str().unwrap());
    }
}

#[test]
fn to_str_and_to_string_keep_the_text() {
    assert_eq!(to_str("/a/b"), "/a/b");
    assert_eq!(to_string("/a/b"), "/a/b".to_string());
}

#[test]
fn ancestors_of_a_path() {
    assert_eq!(ancestor_nth("/a/b/c", 0), "/a/b/c");
    assert_eq!(ancestor_nth("/a/b/c", 1), "/a/b");
    assert_eq!(ancestor_nth("/a/b/c", 3), "/");
    assert_eq!(try_ancestor_nth("/a/b/c", 2), Some("/a".to_string()));
    assert_eq!(try_ancestor_nth("/a/b/c", 4), None);
    assert_eq!(try_ancestor_nth("rel/x", 2), Some("".to_string()));
    assert_eq!(try_ancestor_nth("rel/x", 3), None);
}

fn strings(v: &[&str]) -> Vec<String> {
    v.iter().map(|s| s.to_string()).collect()
}

#[test]
fn test_dir_stem_diff() {
    let src = strings(&["/s/file3.txt", "/s/file1.txt", "/s/file2.txt"]);
    let dst = strings(&["/d/file1.md", "/d/file2.md"]);
    let diff_files = dir_stem_diff(&src, &dst);
    assert_eq!(diff_files, strings(&["/s/file3.txt"]));
}

#[test]
fn dir_stem_diff_sorts_what_is_left() {
    let src = strings(&["/s/c.txt", "/s/a.txt", "/s/b.txt", "/s/d.txt"]);
    let dst = strings(&["/d/b.md"]);
    assert_eq!(dir_stem_diff(&src, &dst), strings(&["/s/a.txt", "/s/c.txt", "/s/d.txt"]));
    assert_eq!(dir_stem_diff(&src, &src), Vec::<String>::new());
}

struct Recorder {
    calls: RefCell<Vec<(String, String)>>,
}

impl FileTranslator for Recorder {
    fn translate(&self, src: &str, dst: &str) -> Result<(), anyhow::Error> {
        self.calls.borrow_mut().push((src.to_string(), dst.to_string()));
        if src.contains("bad") {
            Err(anyhow::Error::msg("cannot translate"))
        } else {
            Ok(())
        }
    }
}

#[test]
fn test_dir_translator() {
    let dir_translator = DirTranslator {
        src_ext: "txt".to_string(),
        dst_ext: "md".to_string(),
    };
    let recorder = Recorder { calls: RefCell::new(Vec::new()) };
    let src = strings(&["/s/file1.txt", "/s/file2.txt", "/s/file3.txt", "/s/bad.txt"]);
    let dst = strings(&["/d/file1.md", "/d/file2.md"]);
    let total = dir_translator.translate_dir(&src, &dst, "/d", &recorder);
    assert_eq!(total, 2);
    assert_eq!(
        *recorder.calls.borrow(),
        vec![
            ("/s/bad.txt".to_string(), "/d/bad.srt".to_string()),
            ("/s/file3.txt".to_string(), "/d/file3.srt".to_string()),
        ]
    );
}

#[test]
fn target_path_uses_the_stem() {
    assert_eq!(DirTranslator::target_path("/s/movie.en.txt", "/out"), "/out/movie.en.srt");
    assert_eq!(DirTranslator::target_path("/s/.hidden", "/out/"), "/out/.hidden.srt");
}

#[test]
fn extension_lookup_is_total() {
    assert_eq!(file_ext_opt("/tmp/a.json"), Some("json"));
    assert_eq!(file_ext_opt("/tmp/.bashrc"), None);
    assert_eq!(file_ext_opt("/"), None);
    assert_eq!(file_ext_opt("a/b.tar.gz"), Some("gz"));
    assert!(has_ext("x/y.txt", "txt"));
    assert!(!has_ext("x/y.txt", "md"));
    assert!(!has_ext("x/y", ""));
    assert_eq!(to_dir_string("/usr"), "/usr/");
    assert_eq!(to_dir_string("/usr/"), "/usr/");
    assert_eq!(to_dir_string(""), "/");
}

#[test]
fn stem_dot_ext_rebuilds_the_name() {
    for p in ["/tmp/a.json", "x/archive.tar.gz", "trailing.", "/a/b..c"] {
        let rebuilt = format!("{}.{}", file_stem(p), file_ext(p));
        assert_eq!(rebuilt, file_name(p));
    }
}

#[test]
fn translation_plan_pairs_each_file_with_its_target() {
    let src = strings(&["/s/file3.txt", "/s/file1.txt", "/s/bad.txt"]);
    let dst = strings(&["/d/file1.md"]);
    assert_eq!(
        DirTranslator::translation_plan(&src, &dst, "/d"),
        vec![
            ("/s/bad.txt".to_string(), "/d/bad.srt".to_string()),
            ("/s/file3.txt".to_string(), "/d/file3.srt".to_string()),
        ]
    );
    assert_eq!(DirTranslator::translation_plan(&src, &src, "/d"), Vec::<(String, String)>::new());
}

#[test]
fn file_name_append_keeps_the_parent() {
    assert_eq!(file_name_append("b.txt", "_1"), "b_1.txt");
    assert_eq!(file_name_append("/b.txt", "_1"), "/b_1.txt");
    assert_eq!(file_name_append("./b.txt", "_1"), "./b_1.txt");
    assert_eq!(file_name_append("a//b.txt", "_1"), "a/b_1.txt");
    assert_eq!(file_name_append("a/./b.txt", "_1"), "a/b_1.txt");
    assert_eq!(file_name_append("a/b.txt/", "_1"), "a/b_1.txt");
}

#[test]
fn search_step_finds_the_first_named_or_queues_all() {
    let mut queue = strings(&["/r/x"]);
    let found = search_step(&mut queue, strings(&["/r/a", "/r/books/", "/r/books2"]), "books");
    assert_eq!(found, Some("/r/books/".to_string()));
    assert_eq!(queue, strings(&["/r/x"]));
    let found = search_step(&mut queue, strings(&["/r/a", "/r/b"]), "books");
    assert_eq!(found, None);
    assert_eq!(queue, strings(&["/r/x", "/r/a", "/r/b"]));
    assert_eq!(search_step(&mut queue, vec![], "books"), None);
    assert_eq!(queue.len(), 3);
}

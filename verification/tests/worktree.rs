use pop_vcs::commits::initial_config;
use pop_vcs::ignore::{
    build_globset, ignore_add, ignore_show, ignore_where, match_globs, requires_lock, should_ignore, sparse_clear,
    sparse_set, sparse_show,
};
use pop_vcs::model::{Config, FileMap, IndexEntry, StatCache};
use pop_vcs::paths::{confine, is_under_pop, normalize_text, sorted_paths, PathError};
use pop_vcs::staging::{can_skip, files_to_write, record_files, surplus_files, unignored, visible_files};
use pop_vcs::strmap::StrMap;

fn strings(v: &[&str]) -> Vec<String> {
    v.iter().map(|s| s.to_string()).collect()
}

fn config(ignore: &[&str], sparse: &[&str]) -> Config {
    Config { ignore: strings(ignore), sparse: strings(sparse), lock_required: vec![] }
}

fn files(pairs: &[(&str, &str)]) -> FileMap {
    let mut m: FileMap = StrMap::new();
    for (p, h) in pairs {
        m.insert(p.to_string(), h.to_string());
    }
    m
}

#[test]
fn paths_are_normalized() {
    for (s, want) in [
        ("a/b", "a/b"),
        ("./a", "a"),
        ("././a\\b", "a/b"),
        (".\\a", "a"),
        ("", ""),
        (".", ""),
        ("./", ""),
        ("./.", ""),
        ("a/.", "a/."),
        (".hidden", ".hidden"),
        ("a..b", "a..b"),
    ] {
        assert_eq!(normalize_text(s), Ok(want.to_string()), "{:?}", s);
        assert_eq!(normalize_text(want), Ok(want.to_string()));
    }
}

#[test]
fn bad_paths_are_refused() {
    let bad = |c: &str| Err(PathError::Component { component: c.to_string() });
    assert_eq!(normalize_text("../a"), bad(".."));
    assert_eq!(normalize_text("a/../b"), bad(".."));
    assert_eq!(normalize_text("/a"), bad(""));
    assert_eq!(normalize_text("a//b"), bad(""));
    assert_eq!(normalize_text("a/"), bad(""));
    assert_eq!(normalize_text("a/b\0c"), bad("b\0c"));
    assert_eq!(confine("a".to_string(), Some(false)), Err(PathError::Outside { path: "a".to_string() }));
    assert_eq!(confine("a".to_string(), Some(true)), Ok("a".to_string()));
    assert_eq!(confine("a".to_string(), None), Ok("a".to_string()));
    assert_eq!(confine("".to_string(), Some(false)), Ok("".to_string()));
}

#[test]
fn the_own_directory_is_known() {
    assert!(is_under_pop(".pop") && is_under_pop(".pop/x"));
    assert!(!is_under_pop(".popx") && !is_under_pop("a/.pop") && !is_under_pop(""));
}

#[test]
fn paths_are_sorted_and_each_is_listed_once() {
    assert_eq!(sorted_paths(&strings(&["b", "a", "b", "a/c", ""])), strings(&["", "a", "a/c", "b"]));
}

#[test]
fn ignore_patterns_cover_paths() {
    let c = config(&["target", " *.log ", "docs\\*", "", "a/b"], &[]);
    for p in ["", ".", ".pop", ".pop/HEAD.json", "target", "target/x/y", "e.log", "d/e.log", "docs/x", "docs/x/y", "a/b", "a/b/c"] {
        assert!(should_ignore(p, &c), "{}", p);
    }
    for p in ["targets", "x/target", "e.logs", "docs", "a", "a/bc"] {
        assert!(!should_ignore(p, &c), "{}", p);
    }
    assert!(should_ignore("x.log", &config(&["*.log"], &[])));
    assert!(!should_ignore("x.tar.gz", &config(&["*.tar.gz"], &[])));
    assert!(should_ignore("log", &config(&["*.log"], &[])));
    assert!(should_ignore("a/x", &config(&["a/*/*"], &[])));
    assert!(should_ignore("node_modules/x", &initial_config()));
    assert!(!should_ignore("src/main.rs", &initial_config()));
}

#[test]
fn sparse_patterns_leave_the_rest_out() {
    let c = config(&["src/x"], &["src/**"]);
    assert!(!should_ignore("src/a.rs", &c));
    assert!(!should_ignore("src/d/a.rs", &c));
    assert!(should_ignore("docs/a.md", &c));
    assert!(should_ignore("src/x", &c));
    assert!(!should_ignore("docs/a.md", &config(&[], &["["])));
    assert!(ignore_where("p", &c, Some(false)) && !ignore_where("p", &c, Some(true)) && !ignore_where("p", &c, None));
    assert!(!ignore_where("p", &config(&[], &[]), Some(false)));
}

#[test]
fn globs_match_as_their_crate_says() {
    assert_eq!(match_globs(&strings(&["*.psd", "x?"]), "d/a.psd"), Some(true));
    assert_eq!(match_globs(&strings(&["*.psd", "x?"]), "xy"), Some(true));
    assert_eq!(match_globs(&strings(&["*.psd", "x?"]), "xyz"), Some(false));
    assert_eq!(match_globs(&strings(&[]), "xyz"), Some(false));
    assert_eq!(match_globs(&strings(&["a", "{b"]), "a"), None);
    assert!(build_globset(&strings(&["[z-a]"])).is_err());
    assert_eq!(build_globset(&strings(&["a", "b"])).unwrap().len(), 2);
}

#[test]
fn locks_are_wanted_by_pattern() {
    let c = initial_config();
    assert!(requires_lock("art/a.blend", &c));
    assert!(!requires_lock("a.txt", &c));
    assert!(!requires_lock("a.blend", &config(&[], &[])));
}

#[test]
fn the_configuration_is_changed() {
    let mut c = config(&[], &[]);
    assert_eq!(ignore_show(&c), strings(&["(no ignore patterns)"]));
    assert_eq!(sparse_show(&c), strings(&["(no sparse patterns)"]));
    ignore_add(&mut c, "*.o");
    assert_eq!(ignore_show(&c), strings(&["*.o"]));
    assert!(!sparse_set(&mut c, &vec![]));
    assert!(sparse_set(&mut c, &strings(&["src", "a\\b/", "/", ""])));
    assert_eq!(sparse_show(&c), strings(&["src/**", "a/b/**", "/**", "/**"]));
    sparse_clear(&mut c);
    assert_eq!(c, config(&["*.o"], &[]));
}

#[test]
fn a_new_repository_is_configured() {
    let c = initial_config();
    assert_eq!(c.ignore, strings(&[".pop", ".git", "node_modules", "target", "dist", "build"]));
    assert!(c.sparse.is_empty());
    assert_eq!(
        c.lock_required,
        strings(&["*.blend", "*.fbx", "*.psd", "*.ai", "*.uasset", "*.umap", "*.unity", "*.scene", "*.kra", "*.clip"])
    );
}

#[test]
fn recorded_files_are_not_read_again() {
    let mut sc = StatCache { files: StrMap::new() };
    let e = |h: &str, m: u64, s: u64| IndexEntry { hash: h.to_string(), mtime: m, size: s };
    record_files(&mut sc, &strings(&["a", "b", "a"]), &vec![e("1", 1, 1), e("", 2, 2), e("3", 3, 3)]);
    assert!(can_skip(&sc, "a", 3, 3));
    assert!(!can_skip(&sc, "a", 3, 4) && !can_skip(&sc, "a", 1, 1));
    assert!(!can_skip(&sc, "b", 2, 2));
    assert!(!can_skip(&sc, "c", 0, 0));
    let m = visible_files(&sc, &config(&["b"], &[]));
    assert_eq!((m.len(), m.key(0).as_str(), m.value(0).as_str()), (1, "a", "3"));
}

#[test]
fn a_restore_removes_and_writes() {
    let c = config(&["skip"], &[]);
    let present = unignored(&strings(&["z", "skip/x", "a", "b"]), &c);
    assert_eq!(present, strings(&["z", "a", "b"]));
    let want = files(&[("b", "1"), ("n", "2"), ("skip/y", "3")]);
    assert_eq!(surplus_files(&present, &want), strings(&["a", "z"]));
    assert_eq!(files_to_write(&want, &c), strings(&["b", "n"]));
}

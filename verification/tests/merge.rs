use pop_vcs::merge::{
    conflict_bytes, finish_merge, is_text, merge_text_3way, resolve_clash, three_way_merge, MergePlan,
};
use pop_vcs::model::FileMap;
use pop_vcs::strmap::StrMap;

fn files(pairs: &[(&str, &str)]) -> FileMap {
    let mut m: FileMap = StrMap::new();
    for (p, h) in pairs {
        m.insert(p.to_string(), h.to_string());
    }
    m
}

fn listed(m: &FileMap) -> Vec<(String, String)> {
    (0..m.len()).map(|i| (m.key(i).clone(), m.value(i).clone())).collect()
}

fn settled(p: &MergePlan) -> Vec<(String, String)> {
    listed(&p.settled)
}

fn pairs(ps: &[(&str, &str)]) -> Vec<(String, String)> {
    ps.iter().map(|(a, b)| (a.to_string(), b.to_string())).collect()
}

#[test]
fn text_is_told_from_other_contents() {
    assert!(is_text(b""));
    assert!(is_text(b"hello\r\n\tworld\x0b\x0c"));
    assert!(!is_text(b"a\0b"));
    assert!(!is_text(b"\x01"));
    let mut b = vec![b'a'; 99];
    b.push(1);
    assert!(is_text(&b));
    let mut c = vec![b'a'; 98];
    c.extend_from_slice(&[1, 2]);
    assert!(!is_text(&c));
    assert!(is_text(&[200u8; 10]));
    assert!(!is_text(&[31u8]));
    assert!(is_text(&[32u8]));
}

#[test]
fn both_sides_stand_between_markers() {
    let want = b"<<<<<<< ours (a/b)\nx\n=======\ny\n>>>>>>> theirs (a/b)\n".to_vec();
    assert_eq!(conflict_bytes("a/b", b"x\n", b"y"), want);
    assert_eq!(conflict_bytes("a/b", b"x", b"y\n"), want);
    assert_eq!(
        conflict_bytes("p", b"", b""),
        b"<<<<<<< ours (p)\n\n=======\n\n>>>>>>> theirs (p)\n".to_vec()
    );
}

#[test]
fn texts_are_merged() {
    assert_eq!(merge_text_3way("p", b"o", b"a", b"a"), b"a");
    assert_eq!(merge_text_3way("p", b"o", b"o", b"b"), b"b");
    assert_eq!(merge_text_3way("p", b"o", b"a", b"o"), b"a");
    assert_eq!(merge_text_3way("p", b"o", b"a", b"b"), conflict_bytes("p", b"a", b"b"));
}

#[test]
fn clashes_are_resolved_by_contents() {
    assert_eq!(resolve_clash("p", &None, b"a", b"a"), conflict_bytes("p", b"a", b"a"));
    assert_eq!(resolve_clash("p", &Some(b"o".to_vec()), b"a", b"o"), b"a");
    assert_eq!(resolve_clash("p", &Some(b"\0".to_vec()), b"a", b"\0"), conflict_bytes("p", b"a", b"\0"));
}

#[test]
fn one_sided_changes_are_taken() {
    let b = files(&[("same", "1"), ("ours", "1"), ("theirs", "1"), ("gone_o", "1"), ("gone_t", "1"), ("both_gone", "1")]);
    let o = files(&[("same", "1"), ("ours", "2"), ("theirs", "1"), ("gone_t", "1"), ("new_o", "5"), ("alike", "7")]);
    let t = files(&[("same", "1"), ("ours", "1"), ("theirs", "3"), ("gone_o", "1"), ("new_t", "6"), ("alike", "7")]);
    let p = three_way_merge(&b, &o, &t);
    assert!(p.clashes.is_empty());
    assert_eq!(
        settled(&p),
        pairs(&[("alike", "7"), ("new_o", "5"), ("new_t", "6"), ("ours", "2"), ("same", "1"), ("theirs", "3")])
    );
    let q = three_way_merge(&b, &t, &o);
    assert_eq!(settled(&q), settled(&p));
}

#[test]
fn a_changed_file_survives_its_deletion() {
    let b = files(&[("a", "1"), ("b", "1")]);
    let o = files(&[("a", "2")]);
    let t = files(&[("b", "3")]);
    let p = three_way_merge(&b, &o, &t);
    assert_eq!(settled(&p), pairs(&[("a", "2"), ("b", "3")]));
}

#[test]
fn clashes_are_listed_and_filled_in() {
    let b = files(&[("x", "1"), ("k", "0")]);
    let o = files(&[("x", "2"), ("n", "4"), ("k", "0")]);
    let t = files(&[("x", "3"), ("n", "5"), ("k", "0")]);
    let p = three_way_merge(&b, &o, &t);
    assert_eq!(settled(&p), pairs(&[("k", "0")]));
    assert_eq!(p.clashes.len(), 2);
    assert_eq!((p.clashes[0].path.as_str(), p.clashes[0].base.clone()), ("n", None));
    assert_eq!((p.clashes[0].ours.as_str(), p.clashes[0].theirs.as_str()), ("4", "5"));
    assert_eq!((p.clashes[1].path.as_str(), p.clashes[1].base.clone()), ("x", Some("1".to_string())));
    let m = finish_merge(p, &vec!["N".to_string(), "X".to_string()]);
    assert_eq!(listed(&m), pairs(&[("k", "0"), ("n", "N"), ("x", "X")]));
}

#[test]
fn a_merge_of_one_side_alone_gives_that_side() {
    let b = files(&[("a", "1"), ("b", "2")]);
    let o = files(&[("b", "3"), ("c", "4")]);
    for (ours, theirs) in [(&o, &b), (&b, &o), (&o, &o)] {
        let p = three_way_merge(&b, ours, theirs);
        assert!(p.clashes.is_empty());
        assert_eq!(settled(&p), listed(&o));
    }
}

use pop_vcs::changes::Layers;
use pop_vcs::commands::{
    cherry_pick_cmd, commit_cmd, diff_cmd, fsck_cmd, gc_cmd, merge_cmd, rebase_cmd, rebase_step, resolve_id_or_branch,
    status_cmd, CommandError, Refusal,
};
use pop_vcs::commits::new_commit;
use pop_vcs::fsck::Issue;
use pop_vcs::graph::{walk_graph, Graph, Links};
use pop_vcs::history::{find_common_ancestor, log_next, merge_base, old_parent, rebase_chain, HistoryError};
use pop_vcs::keep::{collect_needed_objects_for_bundle, gc_keep, reached_commits, walk_roots};
use pop_vcs::loading::{file_hashes, wanted_trees};
use pop_vcs::locks::{LockDb, LockEntry};
use pop_vcs::model::{Commit, Commits, Config, FileMap, Index, IndexEntry, Layer, LayerChange, Tree, TreeEntry};
use pop_vcs::strmap::{StrMap, StrSet};
use pop_vcs::walk::Trees;

fn strings(v: &[&str]) -> Vec<String> {
    v.iter().map(|s| s.to_string()).collect()
}

fn commit(id: &str, parents: &[&str], root: &str, layers: &[&str]) -> Commit {
    Commit {
        id: id.to_string(),
        parents: strings(parents),
        message: format!("message of {}", id),
        seq: 1,
        base_root: root.to_string(),
        layers: strings(layers),
        effective_root: root.to_string(),
        ts: 0,
    }
}

fn commits(list: &[(&str, &[&str])]) -> Commits {
    let mut m: Commits = StrMap::new();
    for (id, parents) in list {
        m.insert(id.to_string(), commit(id, parents, "t0", &[]));
    }
    m
}

fn blob(name: &str, hash: &str) -> TreeEntry {
    TreeEntry { name: name.to_string(), kind: "blob".to_string(), hash: hash.to_string(), mode: "100644".to_string() }
}

fn dir(name: &str, hash: &str) -> TreeEntry {
    TreeEntry { name: name.to_string(), kind: "tree".to_string(), hash: hash.to_string(), mode: "040000".to_string() }
}

fn tree(entries: Vec<TreeEntry>) -> Tree {
    Tree { entries }
}

fn listed(m: &FileMap) -> Vec<(String, String)> {
    (0..m.len()).map(|i| (m.key(i).clone(), m.value(i).clone())).collect()
}

fn members(s: &StrSet) -> Vec<String> {
    (0..s.len()).map(|i| s.item(i).clone()).collect()
}

fn pairs(ps: &[(&str, &str)]) -> Vec<(String, String)> {
    ps.iter().map(|(a, b)| (a.to_string(), b.to_string())).collect()
}

/// Two branches that part after `b`: `o` is ours, `t` is theirs.
fn repository() -> (Commits, Trees, Layers) {
    let mut trees: Trees = StrMap::new();
    trees.insert("t0".to_string(), tree(vec![]));
    trees.insert("tb".to_string(), tree(vec![blob("a", "a1"), dir("d", "sub"), blob("x", "x1")]));
    trees.insert("sub".to_string(), tree(vec![blob("f", "f1")]));
    trees.insert("tt".to_string(), tree(vec![blob("a", "a1"), dir("d", "sub"), blob("x", "x3"), blob("n", "n1")]));
    let mut layers: Layers = StrMap::new();
    layers.insert(
        "lo".to_string(),
        Layer { changes: vec![LayerChange::Put { path: "a".to_string(), hash: "a2".to_string() }] },
    );
    let mut c: Commits = StrMap::new();
    c.insert("r".to_string(), commit("r", &[], "t0", &[]));
    c.insert("b".to_string(), commit("b", &["r"], "tb", &[]));
    c.insert("o".to_string(), commit("o", &["b"], "tb", &["lo"]));
    c.insert("t".to_string(), commit("t", &["b"], "tt", &[]));
    (c, trees, layers)
}

#[test]
fn a_graph_is_walked_from_the_last_root_on() {
    let mut g: Graph = StrMap::new();
    g.insert("a".to_string(), Links { to: strings(&["b", "c"]) });
    g.insert("b".to_string(), Links { to: strings(&["a"]) });
    g.insert("c".to_string(), Links { to: strings(&["gone"]) });
    assert_eq!(walk_graph(&g, &strings(&["x", "a"])), strings(&["a", "c", "gone", "b", "x"]));
    assert_eq!(walk_graph(&g, &vec![]), strings(&[]));
}

#[test]
fn two_lines_meet() {
    let c = commits(&[("r", &[]), ("a1", &["r"]), ("a2", &["a1"]), ("b1", &["a1"]), ("s", &[])]);
    assert_eq!(find_common_ancestor(&c, "a2", "b1"), Ok(Some("a1".to_string())));
    assert_eq!(find_common_ancestor(&c, "b1", "a2"), Ok(Some("a1".to_string())));
    assert_eq!(find_common_ancestor(&c, "a2", "r"), Ok(Some("r".to_string())));
    assert_eq!(find_common_ancestor(&c, "a2", "a2"), Ok(Some("a2".to_string())));
    assert_eq!(find_common_ancestor(&c, "a2", "s"), Ok(None));
    assert_eq!(find_common_ancestor(&c, "missing", "r"), Ok(None));
    assert_eq!(merge_base(&c, "a2", "s"), Ok("cmt_0000000".to_string()));
}

#[test]
fn a_line_that_comes_back_to_itself_is_found() {
    let c = commits(&[("a", &["b"]), ("b", &["a"]), ("r", &[])]);
    assert_eq!(find_common_ancestor(&c, "a", "r"), Err(HistoryError::Endless));
    assert_eq!(find_common_ancestor(&c, "r", "a"), Err(HistoryError::Endless));
    assert_eq!(rebase_chain(&c, "a", "r").err(), Some(HistoryError::Endless));
}

#[test]
fn a_rebase_carries_the_line_over_oldest_first() {
    let c = commits(&[("r", &[]), ("a", &["r"]), ("b", &["a"]), ("c", &["b"]), ("x", &["gone"])]);
    let ids: Vec<String> = rebase_chain(&c, "c", "a").unwrap().iter().map(|k| k.id.clone()).collect();
    assert_eq!(ids, strings(&["b", "c"]));
    let all: Vec<String> = rebase_chain(&c, "c", "elsewhere").unwrap().iter().map(|k| k.id.clone()).collect();
    assert_eq!(all, strings(&["r", "a", "b", "c"]));
    assert_eq!(rebase_chain(&c, "x", "r").err(), Some(HistoryError::Missing { id: "gone".to_string() }));
    assert_eq!(old_parent(c.get("b").unwrap(), "base"), "a");
    assert_eq!(old_parent(c.get("r").unwrap(), "base"), "base");
}

#[test]
fn a_log_goes_back_along_first_parents() {
    let c = commit("a", &["p", "q"], "t", &[]);
    assert_eq!(log_next(&c, 2), Some("p".to_string()));
    assert_eq!(log_next(&c, 1), None);
    assert_eq!(log_next(&commit("a", &[], "t", &[]), 9), None);
}

#[test]
fn reachable_commits_are_found() {
    let (c, _, _) = repository();
    let roots = walk_roots(&strings(&["o", "", "t"]), "");
    assert_eq!(roots, strings(&["o", "t"]));
    assert_eq!(reached_commits(&c, &roots), strings(&["t", "b", "r", "o"]));
}

#[test]
fn garbage_is_what_no_reachable_commit_needs() {
    let (c, trees, layers) = repository();
    let keep = gc_keep(&c, &strings(&["o"]), &trees, &layers);
    assert_eq!(members(&keep), strings(&["a1", "a2", "f1", "lo", "sub", "t0", "tb", "x1"]));
    let stored = strings(&["zz", "a2", "tt", "sub", "n1"]);
    assert_eq!(gc_cmd(&c, &strings(&["o"]), "r", &trees, &layers, &stored), strings(&["zz", "tt", "n1"]));
    assert_eq!(gc_cmd(&c, &strings(&["o"]), "t", &trees, &layers, &stored), strings(&["zz"]));
}

#[test]
fn a_sound_repository_has_no_issue_before_and_after_collecting() {
    let (c, trees, layers) = repository();
    let mut blobs = StrSet::new();
    for h in ["a1", "a2", "f1", "x1", "x3", "n1"] {
        blobs.insert(h.to_string());
    }
    let branches = strings(&["o"]);
    assert_eq!(fsck_cmd(&c, &branches, "o", &trees, &layers, &blobs), vec![]);
    let keep = gc_keep(&c, &walk_roots(&branches, "o"), &trees, &layers);
    let mut left: Trees = StrMap::new();
    for i in 0..trees.len() {
        if keep.contains(trees.key(i)) {
            left.insert(trees.key(i).clone(), Tree { entries: trees.value(i).entries.clone() });
        }
    }
    assert!(left.len() < trees.len());
    assert_eq!(fsck_cmd(&c, &branches, "o", &left, &layers, &blobs), vec![]);
    let none: Vec<String> = vec![];
    assert_eq!(gc_cmd(&c, &branches, "o", &left, &layers, &members(&keep)), none);
}

#[test]
fn a_new_commit_on_a_sound_one_is_sound() {
    let (mut c, mut trees, mut layers) = repository();
    let mut blobs = StrSet::new();
    for h in ["a1", "a2", "f1", "x1", "p1"] {
        blobs.insert(h.to_string());
    }
    let mut idx = Index::blank();
    idx.put.insert("p".to_string(), IndexEntry { hash: "p1".to_string(), size: 0, mtime: 0 });
    idx.del.insert("d/f".to_string());
    let mut db: LockDb = StrMap::new();
    let cfg = Config { ignore: vec![], sparse: vec![], lock_required: vec![] };
    let plan = match commit_cmd("m", c.get("o").unwrap(), &trees, &layers, &idx, &cfg, &mut db, "me", 5) {
        Ok(p) => p,
        Err(_) => panic!("refused"),
    };
    assert!(plan.tree.dirs.is_empty());
    trees.insert("root".to_string(), plan.tree.tree(&vec![]));
    layers.insert("new".to_string(), plan.layer);
    let next = new_commit(c.get("o").unwrap(), "o", "m", "new", "root", 9, 1);
    assert_eq!(next.layers, strings(&["lo", "new"]));
    c.insert(next.id.clone(), next);
    assert_eq!(fsck_cmd(&c, &strings(&["cmt_0000009"]), "o", &trees, &layers, &blobs), vec![]);
    blobs.remove("p1");
    assert_eq!(
        fsck_cmd(&c, &strings(&["cmt_0000009"]), "o", &trees, &layers, &blobs),
        vec![Issue::BadBlob { blob: "p1".to_string(), commit: "cmt_0000009".to_string() }]
    );
}

#[test]
fn every_issue_is_told() {
    let (mut c, trees, layers) = repository();
    let mut blobs = StrSet::new();
    blobs.insert("f1".to_string());
    c.insert("w".to_string(), commit("w", &["gone"], "no", &["nolayer"]));
    let issues = fsck_cmd(&c, &strings(&["w"]), "t", &trees, &layers, &blobs);
    let told: Vec<Option<String>> = issues.iter().map(|i| i.message("(why)")).collect();
    assert_eq!(
        told,
        vec![
            Some("bad blob a1 referenced by t".to_string()),
            Some("bad blob n1 referenced by t".to_string()),
            Some("bad blob x3 referenced by t".to_string()),
            Some("bad blob a1 referenced by b".to_string()),
            Some("bad blob x1 referenced by b".to_string()),
            Some("bad base tree no in w".to_string()),
            Some("bad layer nolayer in w".to_string()),
            Some("bad effective tree no in w".to_string()),
            None,
            Some("missing commit gone (why)".to_string()),
        ]
    );
    assert_eq!(issues[8], Issue::NoFiles { commit: "w".to_string() });
}

#[test]
fn a_push_needs_the_objects_of_all_commits() {
    let (c, trees, layers) = repository();
    let all: Vec<Commit> = vec![c.get("o").unwrap().copy(), c.get("t").unwrap().copy()];
    let need = collect_needed_objects_for_bundle(&all, &trees, &layers).unwrap();
    assert_eq!(members(&need), strings(&["a1", "a2", "f1", "lo", "n1", "sub", "tb", "tt", "x1", "x3"]));
    let bad = vec![commit("w", &[], "tb", &["nolayer"])];
    assert!(collect_needed_objects_for_bundle(&bad, &trees, &layers).is_err());
}

#[test]
fn trees_are_wanted_until_all_are_read() {
    let (_, all, _) = repository();
    let roots = strings(&["tb", "nowhere"]);
    let mut trees: Trees = StrMap::new();
    let mut failed = StrSet::new();
    let mut rounds = 0;
    loop {
        let next = wanted_trees(&roots, &trees, &failed);
        if next.is_empty() {
            break;
        }
        rounds += 1;
        for h in next {
            match all.get(&h) {
                Some(t) => trees.insert(h, Tree { entries: t.entries.clone() }),
                None => failed.insert(h),
            }
        }
    }
    assert_eq!(rounds, 2);
    assert_eq!(trees.len(), 2);
    assert!(trees.contains_key("sub") && failed.contains("nowhere"));
}

#[test]
fn the_files_of_commits_are_listed() {
    let (c, trees, layers) = repository();
    let cs = vec![c.get("o").unwrap().copy(), commit("w", &[], "no", &[])];
    assert_eq!(members(&file_hashes(&cs, &trees, &layers)), strings(&["a2", "f1", "x1"]));
}

#[test]
fn names_are_resolved() {
    assert_eq!(resolve_id_or_branch("main", &Some("c1\n".to_string()), true), Some("c1".to_string()));
    assert_eq!(resolve_id_or_branch("c1", &None, true), Some("c1".to_string()));
    assert_eq!(resolve_id_or_branch("c1", &None, false), None);
}

#[test]
fn differences_between_commits() {
    let (c, trees, layers) = repository();
    let (from, d) = diff_cmd(&c, &trees, &layers, &None, "t").unwrap();
    assert_eq!(from, "b");
    assert_eq!((d.added, d.modified, d.deleted), (strings(&["n"]), strings(&["x"]), strings(&[])));
    let (from, d) = diff_cmd(&c, &trees, &layers, &None, "r").unwrap();
    assert_eq!(from, "r");
    assert!(d.added.is_empty());
    let (_, d) = diff_cmd(&c, &trees, &layers, &Some("t".to_string()), "o").unwrap();
    assert_eq!((d.added, d.modified, d.deleted), (strings(&[]), strings(&["a", "x"]), strings(&["n"])));
    assert_eq!(
        diff_cmd(&c, &trees, &layers, &None, "zz").err(),
        Some(CommandError::Missing { id: "zz".to_string() })
    );
}

#[test]
fn a_merge_finds_its_base() {
    let (c, trees, layers) = repository();
    let p = merge_cmd(&c, &trees, &layers, "o", "t").unwrap();
    assert!(p.clashes.is_empty());
    assert_eq!(listed(&p.settled), pairs(&[("a", "a2"), ("d/f", "f1"), ("n", "n1"), ("x", "x3")]));
    let q = merge_cmd(&c, &trees, &layers, "o", "b").unwrap();
    assert_eq!(listed(&q.settled), pairs(&[("a", "a2"), ("d/f", "f1"), ("x", "x1")]));
    assert_eq!(
        merge_cmd(&c, &trees, &layers, "o", "zz").err(),
        Some(CommandError::Missing { id: "zz".to_string() })
    );
}

#[test]
fn a_picked_commit_brings_its_change() {
    let (c, trees, layers) = repository();
    let m = cherry_pick_cmd(&c, &trees, &layers, "t", "o").unwrap();
    assert_eq!(listed(&m), pairs(&[("a", "a2"), ("d/f", "f1"), ("n", "n1"), ("x", "x3")]));
    let own = cherry_pick_cmd(&c, &trees, &layers, "t", "b").unwrap();
    assert_eq!(listed(&own), pairs(&[("a", "a1"), ("d/f", "f1"), ("n", "n1"), ("x", "x3")]));
    assert_eq!(cherry_pick_cmd(&c, &trees, &layers, "r", "o").err(), Some(CommandError::NoParent));
}

#[test]
fn a_rebase_is_planned() {
    let (c, _, _) = repository();
    let steps = rebase_cmd(&c, "o", "t").unwrap().unwrap();
    assert_eq!(steps.len(), 1);
    assert_eq!((steps[0].commit.id.as_str(), steps[0].against.as_str()), ("o", "b"));
    assert!(rebase_cmd(&c, "b", "t").unwrap().is_none());
    assert_eq!(rebase_cmd(&c, "zz", "t").err(), Some(CommandError::Missing { id: "zz".to_string() }));
}

#[test]
fn a_step_of_a_rebase_brings_the_change_of_its_commit() {
    let (c, trees, layers) = repository();
    let steps = rebase_cmd(&c, "o", "t").unwrap().unwrap();
    let node = match rebase_step(&c, &trees, &layers, &steps[0], c.get("t").unwrap()) {
        Ok(n) => n,
        Err(_) => panic!("refused"),
    };
    assert_eq!(node.blobs, pairs(&[("a", "a2"), ("n", "n1"), ("x", "x3")]));
    assert_eq!(node.dirs.len(), 1);
    assert_eq!(node.dirs[0].0, "d");
    assert_eq!(node.dirs[0].1.blobs, pairs(&[("f", "f1")]));
    let own = match rebase_step(&c, &trees, &layers, &steps[0], c.get("b").unwrap()) {
        Ok(n) => n,
        Err(_) => panic!("refused"),
    };
    assert_eq!(own.blobs, pairs(&[("a", "a2"), ("x", "x1")]));
    let few: Commits = StrMap::new();
    assert_eq!(
        rebase_step(&few, &trees, &layers, &steps[0], c.get("t").unwrap()).err(),
        Some(CommandError::Missing { id: "b".to_string() })
    );
}

#[test]
fn a_commit_is_planned_or_refused() {
    let (c, trees, layers) = repository();
    let cfg = Config { ignore: vec![], sparse: vec![], lock_required: strings(&["*.psd"]) };
    let mut db: LockDb = StrMap::new();
    let mut idx = Index::blank();
    let o = c.get("o").unwrap();
    let r = commit_cmd("  ", o, &trees, &layers, &idx, &cfg, &mut db, "me", 5);
    assert!(matches!(r, Err(Refusal::NoMessage)));
    let r = commit_cmd("m", o, &trees, &layers, &idx, &cfg, &mut db, "me", 5);
    assert!(matches!(r, Err(Refusal::Nothing)));
    let bad = commit("w", &[], "no", &[]);
    let r = commit_cmd("m", &bad, &trees, &layers, &idx, &cfg, &mut db, "me", 5);
    assert!(matches!(r, Err(Refusal::Unreadable(_))));
    idx.put.insert("p.psd".to_string(), IndexEntry { hash: "h".to_string(), size: 0, mtime: 0 });
    let r = commit_cmd("m", o, &trees, &layers, &idx, &cfg, &mut db, "me", 5);
    assert!(matches!(r, Err(Refusal::Locked(s)) if s.contains("  - p.psd (missing lock)")));
    db.insert(
        "p.psd".to_string(),
        LockEntry { path: "p.psd".to_string(), owner: "me".to_string(), token: "t".to_string(), ts: 0, ttl: 9 },
    );
    let plan = match commit_cmd("m", o, &trees, &layers, &idx, &cfg, &mut db, "me", 5) {
        Ok(p) => p,
        Err(_) => panic!("refused"),
    };
    assert_eq!(
        plan.layer.changes,
        vec![LayerChange::Put { path: "p.psd".to_string(), hash: "h".to_string() }]
    );
    let names: Vec<&str> = plan.tree.blobs.iter().map(|(n, _)| n.as_str()).collect();
    assert_eq!(names, vec!["a", "p.psd", "x"]);
    let r = commit_cmd("m", o, &trees, &layers, &idx, &cfg, &mut db, "me", 10);
    assert!(matches!(r, Err(Refusal::Locked(_))));
    assert!(db.is_empty());
}

#[test]
fn a_status_tells_what_is_staged_and_what_is_not() {
    let mut head: FileMap = StrMap::new();
    head.insert("a".to_string(), "1".to_string());
    let mut idx = Index::blank();
    idx.put.insert("b".to_string(), IndexEntry { hash: "2".to_string(), size: 0, mtime: 0 });
    let mut work: FileMap = StrMap::new();
    work.insert("a".to_string(), "9".to_string());
    let (staged, unstaged) = status_cmd(&head, &idx, &work);
    assert_eq!(staged.added, strings(&["b"]));
    assert_eq!(unstaged.modified, strings(&["a"]));
    assert!(unstaged.added.is_empty() && staged.modified.is_empty());
}

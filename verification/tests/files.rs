use pop_vcs::changes::{
    apply_layer, apply_patch, commit_effective_map, diff_maps, make_layer_from_index, make_patch, replay,
    staged_target, CommitError, Layers,
};
use pop_vcs::model::{Commit, FileMap, Index, IndexEntry, Layer, LayerChange, Tree, TreeEntry};
use pop_vcs::objects::blake3_hex;
use pop_vcs::staging::{index_all, stage_files, stage_removals};
use pop_vcs::strmap::{StrMap, StrSet};
use pop_vcs::tree::{build_tree_from_index, Node};
use pop_vcs::walk::{flatten_tree, walk_tree_collect, TreeError, Trees};

fn files(pairs: &[(&str, &str)]) -> FileMap {
    let mut m: FileMap = StrMap::new();
    for (p, h) in pairs {
        m.insert(p.to_string(), h.to_string());
    }
    m
}

fn listed(m: &FileMap) -> Vec<(String, String)> {
    (0..m.len()).map(|i| (m.key(i).clone(), m.value(i).clone())).collect()
}

fn pairs(ps: &[(&str, &str)]) -> Vec<(String, String)> {
    ps.iter().map(|(a, b)| (a.to_string(), b.to_string())).collect()
}

fn entry(hash: &str) -> IndexEntry {
    IndexEntry { hash: hash.to_string(), size: 1, mtime: 2 }
}

fn index(put: &[(&str, &str)], del: &[&str]) -> Index {
    let mut idx = Index::blank();
    for (p, h) in put {
        idx.put.insert(p.to_string(), entry(h));
    }
    for p in del {
        idx.del.insert(p.to_string());
    }
    idx
}

fn strings(v: &[&str]) -> Vec<String> {
    v.iter().map(|s| s.to_string()).collect()
}

/// Stores a node and all below it under names that are made of its place.
fn store(node: &Node, name: &str, trees: &mut Trees) -> String {
    let mut hashes = vec![];
    for (d, child) in &node.dirs {
        hashes.push(store(child, &format!("{}-{}", name, d), trees));
    }
    trees.insert(name.to_string(), node.tree(&hashes));
    name.to_string()
}

fn commit(base_root: &str, layers: &[&str]) -> Commit {
    Commit {
        id: "cmt_0000001".to_string(),
        parents: vec![],
        message: "m".to_string(),
        seq: 1,
        base_root: base_root.to_string(),
        layers: strings(layers),
        effective_root: base_root.to_string(),
        ts: 0,
    }
}

#[test]
fn a_map_keeps_its_keys_in_order() {
    let mut m = files(&[("b", "2"), ("a", "1"), ("c", "3"), ("b", "4")]);
    assert_eq!(listed(&m), pairs(&[("a", "1"), ("b", "4"), ("c", "3")]));
    assert_eq!(m.get("b"), Some(&"4".to_string()));
    assert_eq!(m.get("x"), None);
    m.remove("b");
    m.remove("x");
    assert_eq!(listed(&m), pairs(&[("a", "1"), ("c", "3")]));
    assert!(!m.is_empty());
    let mut s = StrSet::new();
    assert!(s.is_empty());
    s.insert("z".to_string());
    s.insert("y".to_string());
    s.insert("z".to_string());
    assert_eq!(s.len(), 2);
    assert_eq!(s.item(0), "y");
    s.remove("y");
    assert!(s.contains("z") && !s.contains("y"));
}

#[test]
fn a_tree_gives_its_files_back() {
    let m = files(&[("a.txt", "1"), ("d/e/f.txt", "2"), ("d/g.txt", "3"), ("z", "4")]);
    let node = build_tree_from_index(&m);
    let mut trees: Trees = StrMap::new();
    let root = store(&node, "r", &mut trees);
    let back = flatten_tree(&trees, &root).unwrap();
    assert_eq!(listed(&back), listed(&m));
    let top = trees.get("r").unwrap();
    let names: Vec<&str> = top.entries.iter().map(|e| e.name.as_str()).collect();
    assert_eq!(names, vec!["a.txt", "d", "z"]);
    assert_eq!(top.entries[0].mode, "100644");
    assert_eq!(top.entries[1].kind, "tree");
    assert_eq!(top.entries[1].mode, "040000");
}

/// The name of a tree, each listing named by the digest of what it says.
fn root(node: &Node) -> String {
    let hashes: Vec<String> = node.dirs.iter().map(|(_, child)| root(child)).collect();
    blake3_hex(format!("{:?}", node.tree(&hashes)).as_bytes())
}

#[test]
fn one_root_stands_for_one_set_of_files() {
    let all = [
        files(&[]),
        files(&[("a", "1")]),
        files(&[("a", "2")]),
        files(&[("b", "1")]),
        files(&[("a/b", "1")]),
        files(&[("a", "1"), ("a/b", "1")]),
        files(&[("a/b", "1"), ("a/c", "1"), ("d", "1")]),
    ];
    for (i, x) in all.iter().enumerate() {
        for (j, y) in all.iter().enumerate() {
            let same = root(&build_tree_from_index(x)) == root(&build_tree_from_index(y));
            assert_eq!(same, i == j);
        }
    }
    let again = files(&[("d", "1"), ("a/c", "1"), ("a/b", "1")]);
    assert_eq!(root(&build_tree_from_index(&again)), root(&build_tree_from_index(&all[6])));
}

#[test]
fn a_path_with_superfluous_slashes_comes_back_without_them() {
    let m = files(&[("/a//b", "1")]);
    let mut trees: Trees = StrMap::new();
    let root = store(&build_tree_from_index(&m), "r", &mut trees);
    assert_eq!(listed(&flatten_tree(&trees, &root).unwrap()), pairs(&[("a/b", "1")]));
}

#[test]
fn a_tree_that_cannot_be_told() {
    let mut trees: Trees = StrMap::new();
    assert_eq!(flatten_tree(&trees, "r").err(), Some(TreeError::Unreadable));
    let odd = TreeEntry { name: "x".to_string(), kind: "link".to_string(), hash: "h".to_string(), mode: "".to_string() };
    trees.insert("r".to_string(), Tree { entries: vec![odd] });
    assert_eq!(flatten_tree(&trees, "r").err(), Some(TreeError::UnknownKind));
    let own = TreeEntry { name: "x".to_string(), kind: "tree".to_string(), hash: "r".to_string(), mode: "".to_string() };
    trees.insert("r".to_string(), Tree { entries: vec![own] });
    assert_eq!(flatten_tree(&trees, "r").err(), Some(TreeError::TooDeep));
}

#[test]
fn the_objects_of_a_tree_are_gathered() {
    let m = files(&[("a", "1"), ("d/b", "2")]);
    let mut trees: Trees = StrMap::new();
    let root = store(&build_tree_from_index(&m), "r", &mut trees);
    let mut keep = StrSet::new();
    walk_tree_collect(&trees, &root, &mut keep);
    let got: Vec<&String> = (0..keep.len()).map(|i| keep.item(i)).collect();
    assert_eq!(got, vec!["1", "2", "r", "r-d"]);
    let mut none = StrSet::new();
    walk_tree_collect(&trees, "missing", &mut none);
    assert!(none.contains("missing"));
    assert_eq!(none.len(), 1);
}

#[test]
fn a_layer_is_applied_in_order() {
    let mut m = files(&[("a", "1"), ("b", "2")]);
    let layer = Layer {
        changes: vec![
            LayerChange::Put { path: "c".to_string(), hash: "3".to_string() },
            LayerChange::Del { path: "a".to_string() },
            LayerChange::Put { path: "c".to_string(), hash: "4".to_string() },
            LayerChange::Del { path: "x".to_string() },
        ],
    };
    apply_layer(&mut m, &layer);
    assert_eq!(listed(&m), pairs(&[("b", "2"), ("c", "4")]));
}

#[test]
fn a_commit_has_its_base_and_its_layers() {
    let mut trees: Trees = StrMap::new();
    store(&build_tree_from_index(&files(&[("a", "1"), ("b", "2")])), "r", &mut trees);
    let mut layers: Layers = StrMap::new();
    layers.insert(
        "l".to_string(),
        Layer { changes: vec![LayerChange::Del { path: "a".to_string() }, LayerChange::Put { path: "c".to_string(), hash: "3".to_string() }] },
    );
    let m = commit_effective_map(&commit("r", &["l"]), &trees, &layers).unwrap();
    assert_eq!(listed(&m), pairs(&[("b", "2"), ("c", "3")]));
    assert_eq!(commit_effective_map(&commit("r", &["l", "m"]), &trees, &layers).err(), Some(CommitError::Layer));
    assert_eq!(
        commit_effective_map(&commit("q", &[]), &trees, &layers).err(),
        Some(CommitError::Base(TreeError::Unreadable))
    );
}

#[test]
fn a_layer_leads_to_what_was_staged() {
    let parent = files(&[("a", "1"), ("b", "2"), ("c", "3")]);
    let idx = index(&[("a", "1"), ("b", "9"), ("d", "4")], &["c", "nowhere"]);
    let layer = make_layer_from_index(&parent, &idx).unwrap();
    assert_eq!(
        layer.changes,
        vec![
            LayerChange::Put { path: "b".to_string(), hash: "9".to_string() },
            LayerChange::Put { path: "d".to_string(), hash: "4".to_string() },
            LayerChange::Del { path: "c".to_string() },
        ]
    );
    let target = staged_target(&parent, &idx);
    assert_eq!(listed(&target), pairs(&[("a", "1"), ("b", "9"), ("d", "4")]));
    let mut m = files(&[("a", "1"), ("b", "2"), ("c", "3")]);
    apply_layer(&mut m, &layer);
    assert_eq!(listed(&m), listed(&target));
    assert_eq!(make_layer_from_index(&parent, &index(&[("a", "1")], &["x"])), None);
}

#[test]
fn a_deletion_wins_over_a_put_of_the_same_path() {
    let parent = files(&[("a", "1")]);
    let idx = index(&[("a", "2")], &["a"]);
    assert_eq!(listed(&staged_target(&parent, &idx)), pairs(&[]));
}

#[test]
fn differences_are_listed_in_order() {
    let a = files(&[("a", "1"), ("b", "2"), ("c", "3")]);
    let b = files(&[("b", "9"), ("c", "3"), ("e", "5"), ("d", "4")]);
    let d = diff_maps(&a, &b);
    assert_eq!(d.added, strings(&["d", "e"]));
    assert_eq!(d.modified, strings(&["b"]));
    assert_eq!(d.deleted, strings(&["a"]));
    let r = diff_maps(&b, &a);
    assert_eq!((r.added, r.modified, r.deleted), (d.deleted, d.modified, d.added));
    let same = diff_maps(&a, &a);
    assert!(same.added.is_empty() && same.modified.is_empty() && same.deleted.is_empty());
}

#[test]
fn a_patch_leads_from_one_to_the_other() {
    let a = files(&[("a", "1"), ("b", "2"), ("c", "3")]);
    let b = files(&[("b", "9"), ("c", "3"), ("d", "4")]);
    let (put, del) = make_patch(&a, &b);
    assert_eq!(listed(&put), pairs(&[("b", "9"), ("d", "4")]));
    assert_eq!(del.len(), 1);
    assert!(del.contains("a"));
    assert_eq!(listed(&apply_patch(&a, &put, &del)), listed(&b));
    let other = files(&[("x", "7"), ("a", "8")]);
    assert_eq!(listed(&replay(&other, &a, &b)), pairs(&[("b", "9"), ("d", "4"), ("x", "7")]));
    assert_eq!(listed(&replay(&other, &a, &a)), listed(&other));
}

#[test]
fn steps_replayed_where_they_were_made_lead_to_the_same_files() {
    let s0 = files(&[("a", "1")]);
    let s1 = files(&[("a", "2"), ("b", "1")]);
    let s2 = files(&[("b", "1")]);
    let r1 = replay(&s0, &s0, &s1);
    let r2 = replay(&r1, &s1, &s2);
    assert_eq!(listed(&r1), listed(&s1));
    assert_eq!(listed(&r2), listed(&s2));
}

#[test]
fn staging_keeps_puts_and_deletions_apart() {
    let mut idx = Index::blank();
    stage_removals(&mut idx, &strings(&["a", "", "b"]));
    assert_eq!(idx.del.len(), 2);
    stage_files(&mut idx, &strings(&["a"]), &vec![entry("1")]);
    assert!(idx.put.contains_key("a") && !idx.del.contains("a") && idx.del.contains("b"));
    stage_removals(&mut idx, &strings(&["a"]));
    assert!(!idx.put.contains_key("a") && idx.del.contains("a"));
}

#[test]
fn an_index_of_all_files_stages_them() {
    let m = files(&[("a", "1"), ("b", "2")]);
    let idx = index_all(&m, &vec![(5, 6), (7, 8)]);
    let b = idx.put.get("b").unwrap();
    assert_eq!((b.hash.as_str(), b.mtime, b.size), ("2", 7, 8));
    assert!(idx.del.is_empty());
    assert_eq!(listed(&staged_target(&files(&[("a", "0")]), &idx)), listed(&m));
    assert_eq!(listed(&staged_target(&files(&[("gone", "0")]), &idx)), pairs(&[("a", "1"), ("b", "2"), ("gone", "0")]));
}

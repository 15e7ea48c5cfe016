//! Which objects have to be read before the commits of a repository can be worked on.

use vstd::prelude::*;
use vstd::string::*;

use crate::changes;
use crate::changes::{commit_effective_map, Layers};
use crate::graph;
use crate::graph::{walk_graph, Graph, Links};
use crate::model;
use crate::model::{Commit, Tree};
use crate::strmap;
use crate::strmap::{StrMap, StrSet};
use crate::text;
use crate::walk;
use crate::walk::Trees;

verus! {

// ---------------------------------------------------------------------------------------
// Trees
// ---------------------------------------------------------------------------------------
/// The hashes of the trees among the entries, in their order.
pub open spec fn subtrees(es: Seq<model::TreeEntryView>) -> Seq<Seq<char>>
    decreases es.len(),
{
    if es.len() == 0 {
        Seq::empty()
    } else if es.last().kind == "tree"@ {
        subtrees(es.drop_last()).push(es.last().hash)
    } else {
        subtrees(es.drop_last())
    }
}

fn subtree_hashes(t: &Tree) -> (r: Vec<String>)
    ensures
        text::texts(r@) == subtrees(t@),
{
    let ghost es = t@;
    let mut out: Vec<String> = Vec::new();
    let mut i: usize = 0;
    assert(text::texts(out@) =~= subtrees(es.take(0)));
    while i < t.entries.len()
        invariant
            i <= t.entries@.len(),
            es == t@,
            text::texts(out@) == subtrees(es.take(i as int)),
        decreases t.entries@.len() - i,
    {
        let e = &t.entries[i];
        let ghost before = text::texts(out@);
        proof {
            assert(es.take(i + 1).drop_last() =~= es.take(i as int));
            assert(es.take(i + 1).last() == e@);
        }
        if text::str_eq(e.kind.as_str(), "tree") {
            out.push(e.hash.clone());
            assert(text::texts(out@) =~= before.push(e@.hash));
        }
        i = i + 1;
    }
    assert(es.take(i as int) =~= es);
    out
}

/// The trees as a graph that leads from a tree to the trees in it.
pub open spec fn tree_links(t: walk::TreesView) -> graph::GraphView {
    t.map_values(|es: Seq<model::TreeEntryView>| subtrees(es))
}

fn tree_graph(trees: &Trees) -> (r: Graph)
    ensures
        r@ == tree_links(trees@),
{
    let mut out: Graph = StrMap::new();
    let n = trees.len();
    let ghost ks = trees.keys();
    let mut i: usize = 0;
    while i < n
        invariant
            i <= n == ks.len(),
            ks == trees.keys(),
            strmap::lists(ks, trees@.dom()),
            forall|k: Seq<char>| #[trigger] out@.contains_key(k) <==> ks.take(i as int).contains(k),
            forall|k: Seq<char>| #[trigger] out@.contains_key(k) ==> out@[k] == subtrees(trees@[k]),
        decreases n - i,
    {
        let ghost before = out@;
        out.insert(trees.key(i).clone(), Links { to: subtree_hashes(trees.value(i)) });
        proof {
            assert(ks.take(i + 1) =~= ks.take(i as int).push(ks[i as int]));
            assert forall|k: Seq<char>| #[trigger] out@.contains_key(k) <==> ks.take(i + 1).contains(k) by {
                strmap::lemma_push_contains(ks.take(i as int), ks[i as int], k);
                assert(before.contains_key(k) <==> ks.take(i as int).contains(k));
            }
        }
        i = i + 1;
    }
    proof {
        assert(ks.take(i as int) =~= ks);
        assert forall|k: Seq<char>| #[trigger] out@.contains_key(k) <==> tree_links(trees@).contains_key(k) by {
            assert(trees@.dom().contains(k) <==> ks.contains(k));
        }
        assert(out@.dom() =~= tree_links(trees@).dom());
        assert(out@ =~= tree_links(trees@));
    }
    out
}

/// What a walk from `roots` comes to that is neither known nor given up.
pub open spec fn wanted(g: graph::GraphView, roots: Seq<Seq<char>>, failed: Set<Seq<char>>) -> Seq<Seq<char>> {
    strmap::picked(graph::visited(g, roots), |h: Seq<char>| !g.contains_key(h) && !failed.contains(h))
}

/// The trees that have to be read next: those that a walk from `roots` comes to, and that were
/// neither read (`trees`) nor found to be no readable trees (`failed`).
pub fn wanted_trees(roots: &Vec<String>, trees: &Trees, failed: &StrSet) -> (r: Vec<String>)
    ensures
        text::texts(r@) == wanted(tree_links(trees@), text::texts(roots@), failed@),
{
    let g = tree_graph(trees);
    let order = walk_graph(&g, roots);
    let ghost all = text::texts(order@);
    let ghost pick = |h: Seq<char>| !g@.contains_key(h) && !failed@.contains(h);
    let mut out: Vec<String> = Vec::new();
    let mut i: usize = 0;
    assert(text::texts(out@) =~= strmap::picked(all.take(0), pick));
    while i < order.len()
        invariant
            i <= order@.len(),
            all == text::texts(order@),
            pick == (|h: Seq<char>| !g@.contains_key(h) && !failed@.contains(h)),
            text::texts(out@) == strmap::picked(all.take(i as int), pick),
        decreases order@.len() - i,
    {
        let h = &order[i];
        let ghost before = text::texts(out@);
        proof {
            assert(all.take(i + 1).drop_last() =~= all.take(i as int));
            assert(all.take(i + 1).last() == h@);
        }
        if !g.contains_key(h.as_str()) && !failed.contains(h.as_str()) {
            out.push(h.clone());
            assert(text::texts(out@) =~= before.push(h@));
        }
        i = i + 1;
    }
    assert(all.take(i as int) =~= all);
    out
}

// ---------------------------------------------------------------------------------------
// Files
// ---------------------------------------------------------------------------------------
/// One of the commits has a file with this hash.
pub open spec fn holds_file(cs: Seq<model::CommitView>, t: walk::TreesView, l: changes::LayersView, h: Seq<char>) -> bool {
    exists|k: int|
        0 <= k < cs.len() && changes::effective(#[trigger] cs[k], t, l) is Ok && changes::effective(
            cs[k],
            t,
            l,
        )->Ok_0.contains_value(h)
}

/// The hashes of all files of the commits whose files can be told.
pub fn file_hashes(commits: &Vec<Commit>, trees: &Trees, layers: &Layers) -> (r: StrSet)
    ensures
        forall|h: Seq<char>|
            #[trigger] r@.contains(h) <==> holds_file(model::commit_views(commits@), trees@, layers@, h),
{
    let ghost cs = model::commit_views(commits@);
    let mut out = StrSet::new();
    let mut i: usize = 0;
    while i < commits.len()
        invariant
            i <= commits@.len(),
            cs == model::commit_views(commits@),
            forall|h: Seq<char>|
                #[trigger] out@.contains(h) <==> holds_file(cs.take(i as int), trees@, layers@, h),
        decreases commits@.len() - i,
    {
        let ghost before = out@;
        let ghost seen = cs.take(i as int);
        let ghost now = commits@[i as int]@;
        let ghost more = cs.take(i + 1);
        match commit_effective_map(&commits[i], trees, layers) {
            Ok(files) => {
                crate::keep::add_hashes(&mut out, &files);
            },
            Err(_) => {},
        }
        proof {
            assert(more[i as int] == now);
            assert forall|h: Seq<char>| #[trigger] out@.contains(h) <==> holds_file(more, trees@, layers@, h) by {
                assert(before.contains(h) <==> holds_file(seen, trees@, layers@, h));
                if holds_file(seen, trees@, layers@, h) {
                    let k = choose|k: int|
                        0 <= k < seen.len() && changes::effective(#[trigger] seen[k], trees@, layers@) is Ok
                            && changes::effective(seen[k], trees@, layers@)->Ok_0.contains_value(h);
                    assert(more[k] == seen[k]);
                }
                if holds_file(more, trees@, layers@, h) {
                    let k = choose|k: int|
                        0 <= k < more.len() && changes::effective(#[trigger] more[k], trees@, layers@) is Ok
                            && changes::effective(more[k], trees@, layers@)->Ok_0.contains_value(h);
                    if k < i {
                        assert(seen[k] == more[k]);
                    }
                }
            }
        }
        i = i + 1;
    }
    assert(cs.take(i as int) =~= cs);
    out
}

// ---------------------------------------------------------------------------------------
// Laws
// ---------------------------------------------------------------------------------------
/// `t` holds some of the trees of `all`, as they are there.
pub open spec fn part_of(t: walk::TreesView, all: walk::TreesView) -> bool {
    forall|h: Seq<char>| #[trigger] t.contains_key(h) ==> all.contains_key(h) && all[h] == t[h]
}

/// Of what a walk over `t` comes to, `t` has all that `all` has.
spec fn complete(t: walk::TreesView, all: walk::TreesView, seen: Set<Seq<char>>) -> bool {
    &&& forall|h: Seq<char>| seen.contains(h) && #[trigger] all.contains_key(h) ==> t.contains_key(h)
    &&& forall|h: Seq<char>, i: int|
        #![trigger seen.contains(h), t[h][i]]
        seen.contains(h) && t.contains_key(h) && 0 <= i < t[h].len() && t[h][i].kind == "tree"@ ==> seen.contains(
            t[h][i].hash,
        )
}

proof fn lemma_loaded_flat(
    t: walk::TreesView,
    all: walk::TreesView,
    seen: Set<Seq<char>>,
    f: nat,
    prefix: Seq<char>,
    hash: Seq<char>,
    out: model::Files,
)
    requires
        part_of(t, all),
        complete(t, all, seen),
        seen.contains(hash),
    ensures
        walk::flat_tree(t, f, prefix, hash, out) == walk::flat_tree(all, f, prefix, hash, out),
    decreases f, 0nat,
{
    if t.contains_key(hash) && f > 0 {
        let n = t[hash].len() as int;
        lemma_loaded_entries(t, all, seen, (f - 1) as nat, prefix, hash, n, out);
        assert(t[hash].take(n) =~= t[hash]);
    }
}

proof fn lemma_loaded_entries(
    t: walk::TreesView,
    all: walk::TreesView,
    seen: Set<Seq<char>>,
    f: nat,
    prefix: Seq<char>,
    hash: Seq<char>,
    k: int,
    out: model::Files,
)
    requires
        part_of(t, all),
        complete(t, all, seen),
        seen.contains(hash),
        t.contains_key(hash),
        0 <= k <= t[hash].len(),
    ensures
        walk::flat_entries(t, f, prefix, t[hash].take(k), out) == walk::flat_entries(
            all,
            f,
            prefix,
            t[hash].take(k),
            out,
        ),
    decreases f, k + 1,
{
    let es = t[hash];
    if k > 0 {
        assert(es.take(k).drop_last() =~= es.take(k - 1));
        assert(es.take(k).last() == es[k - 1]);
        lemma_loaded_entries(t, all, seen, f, prefix, hash, k - 1, out);
        let e = es[k - 1];
        match walk::flat_entries(t, f, prefix, es.take(k - 1), out) {
            Ok(m) => {
                if e.kind == "tree"@ {
                    assert(seen.contains(t[hash][k - 1].hash));
                    lemma_loaded_flat(t, all, seen, f, walk::child_path(prefix, e.name), e.hash, m);
                }
            },
            Err(_) => {},
        }
    }
}

proof fn lemma_part_nests(t: walk::TreesView, all: walk::TreesView, f: nat, hash: Seq<char>)
    requires
        part_of(t, all),
        walk::nests(all, f, hash),
    ensures
        walk::nests(t, f, hash),
    decreases f,
{
    if t.contains_key(hash) {
        assert forall|i: int| 0 <= i < t[hash].len() && (#[trigger] t[hash][i]).kind == "tree"@ implies walk::nests(
            t,
            (f - 1) as nat,
            t[hash][i].hash,
        ) by {
            assert(all[hash][i] == t[hash][i]);
            lemma_part_nests(t, all, (f - 1) as nat, t[hash][i].hash);
        }
    }
}

proof fn lemma_subtrees_contain(es: Seq<model::TreeEntryView>, i: int)
    requires
        0 <= i < es.len(),
        es[i].kind == "tree"@,
    ensures
        subtrees(es).contains(es[i].hash),
    decreases es.len(),
{
    let f = es.drop_last();
    if i == es.len() - 1 {
        let s = subtrees(f);
        assert(s.push(es.last().hash)[s.len() as int] == es[i].hash);
    } else {
        assert(f[i] == es[i]);
        lemma_subtrees_contain(f, i);
        if es.last().kind == "tree"@ {
            strmap::lemma_push_contains(subtrees(f), es.last().hash, es[i].hash);
        }
    }
}

/// Once no tree is wanted any more, what was read suffices: the files of each root are the same
/// as with all trees that can be read, provided that no tree lies inside itself.
pub proof fn law_loading_is_complete(
    t: walk::TreesView,
    all: walk::TreesView,
    roots: Seq<Seq<char>>,
    failed: Set<Seq<char>>,
    root: Seq<char>,
)
    requires
        t.dom().finite(),
        all.dom().finite(),
        part_of(t, all),
        forall|h: Seq<char>| #[trigger] failed.contains(h) ==> !all.contains_key(h),
        wanted(tree_links(t), roots, failed).len() == 0,
        roots.contains(root),
        walk::nests(all, all.dom().len(), root),
    ensures
        walk::flat(t, root) == walk::flat(all, root),
{
    let g = tree_links(t);
    assert(g.dom() =~= t.dom());
    let order = graph::visited(g, roots);
    let seen = order.to_set();
    let pick = |h: Seq<char>| !g.contains_key(h) && !failed.contains(h);
    strmap::lemma_picked_contains(order, pick);
    assert forall|h: Seq<char>| seen.contains(h) && #[trigger] all.contains_key(h) implies t.contains_key(h) by {
        assert(order.contains(h));
        if !t.contains_key(h) {
            assert(wanted(g, roots, failed).contains(h));
        }
    }
    assert forall|h: Seq<char>, i: int|
        #![trigger seen.contains(h), t[h][i]]
        seen.contains(h) && t.contains_key(h) && 0 <= i < t[h].len() && t[h][i].kind == "tree"@ implies seen.contains(
        t[h][i].hash,
    ) by {
        assert(order.contains(h));
        lemma_subtrees_contain(t[h], i);
        assert(g[h].contains(t[h][i].hash));
        graph::law_walk_is_closed(g, roots, h, t[h][i].hash);
        assert(order.contains(t[h][i].hash));
    }
    graph::law_walk_is_reachability(g, roots);
    let p = seq![root];
    assert(graph::is_path(g, p));
    assert(p[0] == root && p.last() == root);
    assert(graph::reaches(g, roots, root));
    assert(order.contains(root));
    let n = all.dom().len();
    lemma_loaded_flat(t, all, seen, n, Seq::empty(), root, Map::empty());
    lemma_part_nests(t, all, n, root);
    walk::lemma_nests_within(t, n, root);
    assert(t.dom().subset_of(all.dom())) by {
        assert forall|h: Seq<char>| t.dom().contains(h) implies all.dom().contains(h) by {
            assert(t.contains_key(h));
        }
    }
    vstd::set_lib::lemma_len_subset(t.dom(), all.dom());
    walk::lemma_flat_fuel(t, t.dom().len(), n, Seq::empty(), root, Map::empty());
}

/// A tree leads to the trees among its entries and to nothing else.
pub proof fn law_trees_lead_to_their_subtrees(es: Seq<model::TreeEntryView>, h: Seq<char>)
    ensures
        subtrees(es).contains(h) <==> exists|i: int|
            0 <= i < es.len() && (#[trigger] es[i]).kind == "tree"@ && es[i].hash == h,
    decreases es.len(),
{
    if es.len() > 0 {
        let f = es.drop_last();
        law_trees_lead_to_their_subtrees(f, h);
        if exists|i: int| 0 <= i < f.len() && (#[trigger] f[i]).kind == "tree"@ && f[i].hash == h {
            let i = choose|i: int| 0 <= i < f.len() && (#[trigger] f[i]).kind == "tree"@ && f[i].hash == h;
            assert(es[i] == f[i]);
        }
        if exists|i: int| 0 <= i < es.len() && (#[trigger] es[i]).kind == "tree"@ && es[i].hash == h {
            let i = choose|i: int| 0 <= i < es.len() && (#[trigger] es[i]).kind == "tree"@ && es[i].hash == h;
            if i < f.len() {
                assert(f[i] == es[i]);
            }
        }
        assert(es[es.len() - 1] == es.last());
        if es.last().kind == "tree"@ {
            strmap::lemma_push_contains(subtrees(f), es.last().hash, h);
        }
    }
}

/// A tree is wanted exactly where it hangs on one of the roots, and was neither read nor given up.
pub proof fn law_wanted_exactly(t: walk::TreesView, roots: Seq<Seq<char>>, failed: Set<Seq<char>>, h: Seq<char>)
    requires
        t.dom().finite(),
    ensures
        wanted(tree_links(t), roots, failed).contains(h) <==> !t.contains_key(h) && !failed.contains(h)
            && graph::reaches(tree_links(t), roots, h),
        roots.contains(h) ==> graph::reaches(tree_links(t), roots, h),
{
    let g = tree_links(t);
    assert(g.dom() =~= t.dom());
    graph::law_walk_is_reachability(g, roots);
    let pick = |x: Seq<char>| !g.contains_key(x) && !failed.contains(x);
    strmap::lemma_picked_contains(graph::visited(g, roots), pick);
    if roots.contains(h) {
        let p = seq![h];
        assert(graph::is_path(g, p));
        assert(p[0] == h && p.last() == h);
    }
}

/// A hash is listed among the files exactly where one of the commits, whose files can be told, has
/// it at some path.
pub proof fn law_listed_files_are_those_of_commits(
    cs: Seq<model::CommitView>,
    t: walk::TreesView,
    l: changes::LayersView,
    i: int,
    p: Seq<char>,
    h: Seq<char>,
)
    ensures
        0 <= i < cs.len() && changes::effective(cs[i], t, l) is Ok && changes::effective(cs[i], t, l)->Ok_0.contains_pair(
            p,
            h,
        ) ==> holds_file(cs, t, l, h),
        holds_file(cs, t, l, h) ==> exists|c: model::CommitView, q: Seq<char>|
            #[trigger] cs.contains(c) && changes::effective(c, t, l) is Ok && #[trigger] changes::effective(
                c,
                t,
                l,
            )->Ok_0.contains_pair(q, h),
{
    if 0 <= i < cs.len() && changes::effective(cs[i], t, l) is Ok && changes::effective(cs[i], t, l)->Ok_0.contains_pair(
        p,
        h,
    ) {
        let m = changes::effective(cs[i], t, l)->Ok_0;
        assert(m.dom().contains(p));
        assert(m.contains_value(h));
    }
    if holds_file(cs, t, l, h) {
        let k = choose|k: int|
            0 <= k < cs.len() && changes::effective(#[trigger] cs[k], t, l) is Ok && changes::effective(
                cs[k],
                t,
                l,
            )->Ok_0.contains_value(h);
        let m = changes::effective(cs[k], t, l)->Ok_0;
        let q = choose|q: Seq<char>| m.dom().contains(q) && m[q] == h;
        assert(cs.contains(cs[k]));
        assert(m.contains_pair(q, h));
    }
}

} // verus!

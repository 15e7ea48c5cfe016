//! Which objects a repository needs: those that a collection of garbage keeps, and those that
//! a push sends.

use vstd::prelude::*;
use vstd::string::*;

use crate::changes;
use crate::changes::{commit_effective_map, CommitError, Layers};
use crate::graph;
use crate::graph::{walk_graph, Graph, Links};
use crate::history;
use crate::model;
use crate::model::{copy_texts, Commit, Commits, FileMap};
use crate::strmap;
use crate::strmap::{StrMap, StrSet};
use crate::text;
use crate::text::nonempty_texts;
use crate::walk;
use crate::walk::{walk_tree_collect, Trees};

verus! {

// ---------------------------------------------------------------------------------------
// Reachable commits
// ---------------------------------------------------------------------------------------
/// The commits as a graph that leads from a commit to its parents.
pub open spec fn parent_links(c: history::CommitsView) -> graph::GraphView {
    c.map_values(|v: model::CommitView| v.parents)
}

/// The commits as a graph that leads from a commit to its parents.
pub fn parent_graph(commits: &Commits) -> (r: Graph)
    ensures
        r@ == parent_links(commits@),
{
    let mut out: Graph = StrMap::new();
    let n = commits.len();
    let ghost ks = commits.keys();
    let mut i: usize = 0;
    while i < n
        invariant
            i <= n == ks.len(),
            ks == commits.keys(),
            strmap::lists(ks, commits@.dom()),
            forall|k: Seq<char>| #[trigger] out@.contains_key(k) <==> ks.take(i as int).contains(k),
            forall|k: Seq<char>| #[trigger] out@.contains_key(k) ==> out@[k] == commits@[k].parents,
        decreases n - i,
    {
        let ghost before = out@;
        out.insert(commits.key(i).clone(), Links { to: copy_texts(&commits.value(i).parents) });
        proof {
            assert(ks.take(i + 1) =~= ks.take(i as int).push(ks[i as int]));
            assert forall|k: Seq<char>| #[trigger] out@.contains_key(k) <==> ks.take(i + 1).contains(k) by {
                strmap::lemma_push_contains(ks.take(i as int), ks[i as int], k);
                assert(before.contains_key(k) <==> ks.take(i as int).contains(k));
            }
        }
        i = i + 1;
    }
    proof {
        assert(ks.take(i as int) =~= ks);
        assert forall|k: Seq<char>| #[trigger] out@.contains_key(k) <==> parent_links(commits@).contains_key(k) by {
            assert(commits@.dom().contains(k) <==> ks.contains(k));
        }
        assert(out@.dom() =~= parent_links(commits@).dom());
        assert(out@ =~= parent_links(commits@));
    }
    out
}

/// Where a walk over the commits begins: at the branches, and last at HEAD. Branches and a
/// HEAD that name nothing are left out.
pub open spec fn roots_of(branches: Seq<Seq<char>>, head: Seq<char>) -> Seq<Seq<char>> {
    text::nonempty(branches.push(head))
}

/// Where a walk over the commits begins.
pub fn walk_roots(branches: &Vec<String>, head: &str) -> (r: Vec<String>)
    ensures
        text::texts(r@) == roots_of(text::texts(branches@), head@),
{
    let mut all = copy_texts(branches);
    let ghost before = text::texts(all@);
    all.push(String::from_str(head));
    assert(text::texts(all@) =~= before.push(head@));
    nonempty_texts(&all)
}

/// The commits that a walk from `roots` comes to, in its order, known or not.
pub open spec fn reached(c: history::CommitsView, roots: Seq<Seq<char>>) -> Seq<Seq<char>> {
    graph::visited(parent_links(c), roots)
}

/// The commits that a walk from `roots` comes to.
pub fn reached_commits(commits: &Commits, roots: &Vec<String>) -> (r: Vec<String>)
    ensures
        text::texts(r@) == reached(commits@, text::texts(roots@)),
{
    let g = parent_graph(commits);
    walk_graph(&g, roots)
}

// ---------------------------------------------------------------------------------------
// Objects of a commit
// ---------------------------------------------------------------------------------------
/// The objects that a commit needs: its trees and all that they are made of, its layers, and
/// its files, where these can be told.
pub open spec fn needs(c: model::CommitView, t: walk::TreesView, l: changes::LayersView, h: Seq<char>) -> bool {
    ||| c.layers.contains(h)
    ||| (changes::effective(c, t, l) is Ok && changes::effective(c, t, l)->Ok_0.contains_value(h))
    ||| walk::gathered(t, c.effective_root, walk::gathered(t, c.base_root, Set::empty())).contains(h)
}

fn add_texts(s: &mut StrSet, v: &Vec<String>)
    ensures
        forall|h: Seq<char>| #[trigger] final(s)@.contains(h) <==> old(s)@.contains(h) || text::texts(v@).contains(h),
{
    let ghost start = s@;
    let ghost ts = text::texts(v@);
    let mut i: usize = 0;
    while i < v.len()
        invariant
            i <= v@.len(),
            ts == text::texts(v@),
            forall|h: Seq<char>| #[trigger] s@.contains(h) <==> start.contains(h) || ts.take(i as int).contains(h),
        decreases v@.len() - i,
    {
        let ghost before = s@;
        s.insert(v[i].clone());
        proof {
            assert(ts.take(i + 1) =~= ts.take(i as int).push(ts[i as int]));
            assert forall|h: Seq<char>|
                #[trigger] s@.contains(h) <==> start.contains(h) || ts.take(i + 1).contains(h) by {
                strmap::lemma_push_contains(ts.take(i as int), ts[i as int], h);
                assert(before.contains(h) <==> start.contains(h) || ts.take(i as int).contains(h));
            }
        }
        i = i + 1;
    }
    assert(ts.take(i as int) =~= ts);
}

pub(crate) fn add_hashes(s: &mut StrSet, m: &FileMap)
    ensures
        forall|h: Seq<char>| #[trigger] final(s)@.contains(h) <==> old(s)@.contains(h) || m@.contains_value(h),
{
    let ghost start = s@;
    let n = m.len();
    let ghost ks = m.keys();
    let mut i: usize = 0;
    while i < n
        invariant
            i <= n == ks.len(),
            ks == m.keys(),
            strmap::lists(ks, m@.dom()),
            forall|h: Seq<char>|
                #[trigger] s@.contains(h) <==> start.contains(h) || exists|j: int|
                    0 <= j < i && m@[#[trigger] ks[j]] == h,
        decreases n - i,
    {
        let ghost before = s@;
        s.insert(m.value(i).clone());
        proof {
            assert forall|h: Seq<char>|
                #[trigger] s@.contains(h) <==> start.contains(h) || exists|j: int|
                    0 <= j < i + 1 && m@[#[trigger] ks[j]] == h by {
                assert(before.contains(h) <==> start.contains(h) || exists|j: int|
                    0 <= j < i && m@[#[trigger] ks[j]] == h);
                if h == m@[ks[i as int]] {
                    assert(s@.contains(h));
                } else if exists|j: int| 0 <= j < i + 1 && m@[#[trigger] ks[j]] == h {
                    let j = choose|j: int| 0 <= j < i + 1 && m@[#[trigger] ks[j]] == h;
                    assert(0 <= j < i);
                }
            }
        }
        i = i + 1;
    }
    proof {
        assert forall|h: Seq<char>| #[trigger] s@.contains(h) <==> start.contains(h) || m@.contains_value(h) by {
            if m@.contains_value(h) {
                let p = choose|p: Seq<char>| m@.dom().contains(p) && m@[p] == h;
                assert(ks.contains(p));
                let j = choose|j: int| 0 <= j < ks.len() && ks[j] == p;
                assert(m@[ks[j]] == h);
            }
            if exists|j: int| 0 <= j < n && m@[#[trigger] ks[j]] == h {
                let j = choose|j: int| 0 <= j < n && m@[#[trigger] ks[j]] == h;
                assert(ks.contains(ks[j]));
                assert(m@.dom().contains(ks[j]));
            }
        }
    }
}

fn add_all(s: &mut StrSet, other: &StrSet)
    ensures
        forall|h: Seq<char>| #[trigger] final(s)@.contains(h) <==> old(s)@.contains(h) || other@.contains(h),
{
    let ghost start = s@;
    let n = other.len();
    let ghost os = other.items();
    let mut i: usize = 0;
    while i < n
        invariant
            i <= n == os.len(),
            os == other.items(),
            forall|h: Seq<char>| #[trigger] s@.contains(h) <==> start.contains(h) || os.take(i as int).contains(h),
        decreases n - i,
    {
        let ghost before = s@;
        s.insert(other.item(i).clone());
        proof {
            assert(os.take(i + 1) =~= os.take(i as int).push(os[i as int]));
            assert forall|h: Seq<char>|
                #[trigger] s@.contains(h) <==> start.contains(h) || os.take(i + 1).contains(h) by {
                strmap::lemma_push_contains(os.take(i as int), os[i as int], h);
                assert(before.contains(h) <==> start.contains(h) || os.take(i as int).contains(h));
            }
        }
        i = i + 1;
    }
    proof {
        assert(os.take(i as int) =~= os);
        assert forall|h: Seq<char>| #[trigger] s@.contains(h) <==> start.contains(h) || other@.contains(h) by {
            assert(other@.contains(h) <==> os.contains(h));
        }
    }
}

/// Adds the objects that the commit `c` needs; tells why its files cannot be told, where that
/// is so.
fn add_needs(s: &mut StrSet, c: &Commit, trees: &Trees, layers: &Layers) -> (r: Option<CommitError>)
    ensures
        forall|h: Seq<char>|
            #[trigger] final(s)@.contains(h) <==> old(s)@.contains(h) || needs(c@, trees@, layers@, h),
        match r {
            None => changes::effective(c@, trees@, layers@) is Ok,
            Some(e) => changes::effective(c@, trees@, layers@) == Err::<model::Files, CommitError>(e),
        },
{
    let ghost start = s@;
    add_texts(s, &c.layers);
    let ghost s1 = s@;
    let r = match commit_effective_map(c, trees, layers) {
        Ok(files) => {
            add_hashes(s, &files);
            None
        },
        Err(e) => Some(e),
    };
    let ghost s2 = s@;
    let mut tmp = StrSet::new();
    walk_tree_collect(trees, c.base_root.as_str(), &mut tmp);
    walk_tree_collect(trees, c.effective_root.as_str(), &mut tmp);
    add_all(s, &tmp);
    proof {
        assert forall|h: Seq<char>|
            #[trigger] s@.contains(h) <==> start.contains(h) || needs(c@, trees@, layers@, h) by {
            assert(s1.contains(h) <==> start.contains(h) || c@.layers.contains(h));
            assert(s2.contains(h) <==> s1.contains(h) || (changes::effective(c@, trees@, layers@) is Ok
                && changes::effective(c@, trees@, layers@)->Ok_0.contains_value(h)));
        }
    }
    r
}

// ---------------------------------------------------------------------------------------
// Collecting garbage
// ---------------------------------------------------------------------------------------
/// The objects that a collection of garbage keeps: those that a known commit needs to which
/// the walk from `roots` comes.
pub open spec fn kept(
    c: history::CommitsView,
    roots: Seq<Seq<char>>,
    t: walk::TreesView,
    l: changes::LayersView,
    h: Seq<char>,
) -> bool {
    exists|id: Seq<char>|
        #[trigger] c.contains_key(id) && reached(c, roots).contains(id) && needs(c[id], t, l, h)
}

/// The objects that a collection of garbage keeps.
pub fn gc_keep(commits: &Commits, roots: &Vec<String>, trees: &Trees, layers: &Layers) -> (r: StrSet)
    ensures
        forall|h: Seq<char>|
            #[trigger] r@.contains(h) <==> kept(commits@, text::texts(roots@), trees@, layers@, h),
{
    let ids = reached_commits(commits, roots);
    let ghost order = text::texts(ids@);
    let mut keep = StrSet::new();
    let mut i: usize = 0;
    while i < ids.len()
        invariant
            i <= ids@.len(),
            order == text::texts(ids@),
            order == reached(commits@, text::texts(roots@)),
            forall|h: Seq<char>|
                #[trigger] keep@.contains(h) <==> exists|id: Seq<char>|
                    #[trigger] commits@.contains_key(id) && order.take(i as int).contains(id) && needs(
                        commits@[id],
                        trees@,
                        layers@,
                        h,
                    ),
        decreases ids@.len() - i,
    {
        let ghost before = keep@;
        let ghost seen = order.take(i as int);
        match commits.get(ids[i].as_str()) {
            Some(c) => {
                let _unreadable = add_needs(&mut keep, c, trees, layers);
            },
            None => {},
        }
        proof {
            let now = ids@[i as int]@;
            assert(order.take(i + 1) =~= seen.push(now));
            assert forall|h: Seq<char>|
                #[trigger] keep@.contains(h) <==> exists|id: Seq<char>|
                    #[trigger] commits@.contains_key(id) && order.take(i + 1).contains(id) && needs(
                        commits@[id],
                        trees@,
                        layers@,
                        h,
                    ) by {
                assert(before.contains(h) <==> exists|id: Seq<char>|
                    #[trigger] commits@.contains_key(id) && seen.contains(id) && needs(
                        commits@[id],
                        trees@,
                        layers@,
                        h,
                    ));
                if keep@.contains(h) {
                    if before.contains(h) {
                        let id = choose|id: Seq<char>|
                            #[trigger] commits@.contains_key(id) && seen.contains(id) && needs(
                                commits@[id],
                                trees@,
                                layers@,
                                h,
                            );
                        strmap::lemma_push_contains(seen, now, id);
                    } else {
                        strmap::lemma_push_contains(seen, now, now);
                        assert(commits@.contains_key(now));
                    }
                }
                if exists|id: Seq<char>|
                    #[trigger] commits@.contains_key(id) && order.take(i + 1).contains(id) && needs(
                        commits@[id],
                        trees@,
                        layers@,
                        h,
                    ) {
                    let id = choose|id: Seq<char>|
                        #[trigger] commits@.contains_key(id) && order.take(i + 1).contains(id) && needs(
                            commits@[id],
                            trees@,
                            layers@,
                            h,
                        );
                    strmap::lemma_push_contains(seen, now, id);
                    if id != now {
                        assert(before.contains(h));
                    }
                }
            }
        }
        i = i + 1;
    }
    assert(order.take(i as int) =~= order);
    keep
}

/// The objects that a collection of garbage removes: of those that are stored, all that are
/// not kept, in the order in which they were listed.
pub fn gc_sweep(stored: &Vec<String>, keep: &StrSet) -> (r: Vec<String>)
    ensures
        text::texts(r@) == strmap::picked(text::texts(stored@), |h: Seq<char>| !keep@.contains(h)),
{
    let ghost pick = |h: Seq<char>| !keep@.contains(h);
    let ghost all = text::texts(stored@);
    let mut out: Vec<String> = Vec::new();
    let mut i: usize = 0;
    assert(text::texts(out@) =~= strmap::picked(all.take(0), pick));
    while i < stored.len()
        invariant
            i <= stored@.len(),
            all == text::texts(stored@),
            pick == (|h: Seq<char>| !keep@.contains(h)),
            text::texts(out@) == strmap::picked(all.take(i as int), pick),
        decreases stored@.len() - i,
    {
        let ghost before = text::texts(out@);
        proof {
            assert(all.take(i + 1).drop_last() =~= all.take(i as int));
            assert(all.take(i + 1).last() == stored@[i as int]@);
        }
        if !keep.contains(stored[i].as_str()) {
            out.push(stored[i].clone());
            assert(text::texts(out@) =~= before.push(stored@[i as int]@));
        }
        i = i + 1;
    }
    assert(all.take(i as int) =~= all);
    out
}

// ---------------------------------------------------------------------------------------
// What a push sends
// ---------------------------------------------------------------------------------------
/// The first commit whose files cannot be told, if any, says why.
pub open spec fn first_unreadable(cs: Seq<model::CommitView>, t: walk::TreesView, l: changes::LayersView) -> Option<
    CommitError,
>
    decreases cs.len(),
{
    if cs.len() == 0 {
        None
    } else {
        match first_unreadable(cs.drop_last(), t, l) {
            Some(e) => Some(e),
            None => match changes::effective(cs.last(), t, l) {
                Ok(_) => None,
                Err(e) => Some(e),
            },
        }
    }
}

proof fn lemma_unreadable_stays(cs: Seq<model::CommitView>, t: walk::TreesView, l: changes::LayersView, k: int)
    requires
        0 <= k <= cs.len(),
        first_unreadable(cs.take(k), t, l) is Some,
    ensures
        first_unreadable(cs, t, l) == first_unreadable(cs.take(k), t, l),
    decreases cs.len() - k,
{
    if k < cs.len() {
        assert(cs.take(k + 1).drop_last() =~= cs.take(k));
        lemma_unreadable_stays(cs, t, l, k + 1);
    } else {
        assert(cs.take(k) =~= cs);
    }
}

/// Some commit of `cs` needs the object `h`.
pub open spec fn any_needs(cs: Seq<model::CommitView>, t: walk::TreesView, l: changes::LayersView, h: Seq<char>) -> bool {
    exists|k: int| 0 <= k < cs.len() && needs(#[trigger] cs[k], t, l, h)
}

/// The objects that the commits of a bundle need, or why the files of one of them cannot be
/// told.
pub fn collect_needed_objects_for_bundle(commits: &Vec<Commit>, trees: &Trees, layers: &Layers) -> (r: Result<
    StrSet,
    CommitError,
>)
    ensures
        match r {
            Ok(objs) => first_unreadable(model::commit_views(commits@), trees@, layers@) is None && forall|
                h: Seq<char>,
            | #[trigger]
                objs@.contains(h) <==> any_needs(model::commit_views(commits@), trees@, layers@, h),
            Err(e) => first_unreadable(model::commit_views(commits@), trees@, layers@) == Some(e),
        },
{
    let ghost cs = model::commit_views(commits@);
    let mut objs = StrSet::new();
    let mut i: usize = 0;
    assert(cs.take(0) =~= Seq::empty());
    while i < commits.len()
        invariant
            i <= commits@.len(),
            cs == model::commit_views(commits@),
            first_unreadable(cs.take(i as int), trees@, layers@) is None,
            forall|h: Seq<char>|
                #[trigger] objs@.contains(h) <==> any_needs(cs.take(i as int), trees@, layers@, h),
        decreases commits@.len() - i,
    {
        let ghost before = objs@;
        let ghost seen = cs.take(i as int);
        proof {
            assert(cs.take(i + 1).drop_last() =~= seen);
            assert(cs.take(i + 1).last() == commits@[i as int]@);
        }
        match add_needs(&mut objs, &commits[i], trees, layers) {
            Some(e) => {
                proof {
                    lemma_unreadable_stays(cs, trees@, layers@, i + 1);
                }
                return Err(e);
            },
            None => {},
        }
        proof {
            let more = cs.take(i + 1);
            assert forall|h: Seq<char>| #[trigger] objs@.contains(h) <==> any_needs(more, trees@, layers@, h) by {
                assert(before.contains(h) <==> any_needs(seen, trees@, layers@, h));
                if any_needs(seen, trees@, layers@, h) {
                    let k = choose|k: int| 0 <= k < seen.len() && needs(#[trigger] seen[k], trees@, layers@, h);
                    assert(more[k] == seen[k]);
                }
                if needs(commits@[i as int]@, trees@, layers@, h) {
                    assert(more[i as int] == commits@[i as int]@);
                }
                if any_needs(more, trees@, layers@, h) {
                    let k = choose|k: int| 0 <= k < more.len() && needs(#[trigger] more[k], trees@, layers@, h);
                    if k < i {
                        assert(seen[k] == more[k]);
                    }
                }
            }
        }
        i = i + 1;
    }
    assert(cs.take(i as int) =~= cs);
    Ok(objs)
}

// ---------------------------------------------------------------------------------------
// Laws
// ---------------------------------------------------------------------------------------
/// A commit whose needed objects are all kept says the same as before, whatever else is lost.
pub proof fn law_needed_objects_suffice(
    c: model::CommitView,
    t: walk::TreesView,
    l: changes::LayersView,
    u: walk::TreesView,
    k: changes::LayersView,
    keep: Set<Seq<char>>,
)
    requires
        t.dom().finite(),
        u.dom().finite(),
        changes::effective(c, t, l) is Ok,
        forall|h: Seq<char>| needs(c, t, l, h) ==> #[trigger] keep.contains(h),
        walk::agrees_on(t, u, keep),
        forall|h: Seq<char>|
            keep.contains(h) && #[trigger] l.contains_key(h) ==> k.contains_key(h) && k[h] == l[h],
    ensures
        changes::effective(c, u, k) == changes::effective(c, t, l),
        forall|p: Seq<char>|
            changes::effective(c, t, l)->Ok_0.contains_key(p) ==> keep.contains(
                #[trigger] changes::effective(c, t, l)->Ok_0[p],
            ),
{
    let m = changes::effective(c, t, l)->Ok_0;
    let first = walk::gathered(t, c.base_root, Set::empty());
    assert(first.subset_of(keep)) by {
        walk::lemma_gathered_grows(t, c.effective_root, first);
        assert forall|h: Seq<char>| first.contains(h) implies keep.contains(h) by {
            assert(needs(c, t, l, h));
        }
    }
    walk::law_gathered_trees_suffice(t, u, c.base_root, Set::empty(), keep);
    let base = walk::flat(t, c.base_root)->Ok_0;
    assert forall|h: Seq<char>| c.layers.contains(h) implies keep.contains(h) by {
        assert(needs(c, t, l, h));
    }
    lemma_layers_agree(base, l, k, c.layers, keep);
    assert forall|p: Seq<char>| m.contains_key(p) implies keep.contains(#[trigger] m[p]) by {
        assert(m.contains_value(m[p]));
        assert(needs(c, t, l, m[p]));
    }
}

proof fn lemma_layers_agree(
    m: model::Files,
    l: changes::LayersView,
    k: changes::LayersView,
    hs: Seq<Seq<char>>,
    keep: Set<Seq<char>>,
)
    requires
        changes::layered(m, l, hs) is Some,
        forall|h: Seq<char>| #[trigger] hs.contains(h) ==> keep.contains(h),
        forall|h: Seq<char>|
            keep.contains(h) && #[trigger] l.contains_key(h) ==> k.contains_key(h) && k[h] == l[h],
    ensures
        changes::layered(m, k, hs) == changes::layered(m, l, hs),
    decreases hs.len(),
{
    if hs.len() > 0 {
        let f = hs.drop_last();
        assert forall|h: Seq<char>| #[trigger] f.contains(h) implies keep.contains(h) by {
            let i = choose|i: int| 0 <= i < f.len() && f[i] == h;
            assert(hs[i] == h);
            assert(hs.contains(h));
        }
        lemma_layers_agree(m, l, k, f, keep);
        assert(hs.contains(hs.last()));
        assert(l.contains_key(hs.last()));
    }
}

/// Collecting garbage loses no file from the list of a commit that can be reached: once only the
/// kept trees and layers are left, its files have the same paths and hashes as before, and the
/// object of each hash is kept. Nothing is said of the further objects in which the contents of a
/// large file lie.
pub proof fn law_gc_keeps_reachable_commits(
    c: history::CommitsView,
    roots: Seq<Seq<char>>,
    t: walk::TreesView,
    l: changes::LayersView,
    keep: Set<Seq<char>>,
    id: Seq<char>,
)
    requires
        t.dom().finite(),
        c.contains_key(id),
        reached(c, roots).contains(id),
        changes::effective(c[id], t, l) is Ok,
        forall|h: Seq<char>| #[trigger] keep.contains(h) <==> kept(c, roots, t, l, h),
    ensures
        changes::effective(c[id], t.restrict(keep), l.restrict(keep)) == changes::effective(c[id], t, l),
        forall|p: Seq<char>|
            changes::effective(c[id], t, l)->Ok_0.contains_key(p) ==> keep.contains(
                #[trigger] changes::effective(c[id], t, l)->Ok_0[p],
            ),
{
    let u = t.restrict(keep);
    assert(u.dom() =~= t.dom().intersect(keep));
    assert forall|h: Seq<char>| needs(c[id], t, l, h) implies #[trigger] keep.contains(h) by {
        assert(kept(c, roots, t, l, h));
    }
    law_needed_objects_suffice(c[id], t, l, u, l.restrict(keep), keep);
}

/// What is removed is not kept, and what is kept is not removed.
pub proof fn law_gc_removes_the_rest(stored: Seq<Seq<char>>, keep: Set<Seq<char>>, h: Seq<char>)
    ensures
        strmap::picked(stored, |x: Seq<char>| !keep.contains(x)).contains(h) <==> stored.contains(h)
            && !keep.contains(h),
{
    strmap::lemma_picked_contains(stored, |x: Seq<char>| !keep.contains(x));
}

/// Collecting garbage a second time removes nothing: once only the kept trees and layers are
/// left, all that was kept is kept again. This needs that no tree lies inside itself.
pub proof fn law_gc_twice(
    c: history::CommitsView,
    roots: Seq<Seq<char>>,
    t: walk::TreesView,
    l: changes::LayersView,
    keep: Set<Seq<char>>,
    h: Seq<char>,
)
    requires
        t.dom().finite(),
        forall|id: Seq<char>|
            #[trigger] c.contains_key(id) && reached(c, roots).contains(id) ==> walk::nests(
                t,
                t.dom().len(),
                c[id].base_root,
            ) && walk::nests(t, t.dom().len(), c[id].effective_root),
        forall|x: Seq<char>| #[trigger] keep.contains(x) <==> kept(c, roots, t, l, x),
        keep.contains(h),
    ensures
        kept(c, roots, t.restrict(keep), l.restrict(keep), h),
{
    assert(kept(c, roots, t, l, h));
    let id = choose|id: Seq<char>|
        #[trigger] c.contains_key(id) && reached(c, roots).contains(id) && needs(c[id], t, l, h);
    let u = t.restrict(keep);
    let first = walk::gathered(t, c[id].base_root, Set::empty());
    let both = walk::gathered(t, c[id].effective_root, first);
    assert forall|x: Seq<char>| both.contains(x) implies keep.contains(x) by {
        assert(needs(c[id], t, l, x));
        assert(kept(c, roots, t, l, x));
    }
    walk::lemma_gathered_grows(t, c[id].effective_root, first);
    walk::law_gathering_again(t, c[id].base_root, Set::empty(), keep);
    walk::law_gathering_again(t, c[id].effective_root, first, keep);
    if changes::effective(c[id], t, l) is Ok {
        law_gc_keeps_reachable_commits(c, roots, t, l, keep, id);
    }
    assert(needs(c[id], u, l.restrict(keep), h));
}

/// Every branch and HEAD, where they name a commit, can be reached; and with a known commit all
/// its parents.
pub proof fn law_reached_commits(c: history::CommitsView, roots: Seq<Seq<char>>, x: Seq<char>, y: Seq<char>)
    requires
        c.dom().finite(),
    ensures
        roots.contains(x) ==> reached(c, roots).contains(x),
        reached(c, roots).contains(x) && c.contains_key(x) && c[x].parents.contains(y) ==> reached(
            c,
            roots,
        ).contains(y),
{
    let g = parent_links(c);
    assert(g.dom() =~= c.dom());
    graph::law_walk_is_reachability(g, roots);
    if roots.contains(x) {
        let p = seq![x];
        assert(graph::is_path(g, p));
        assert(p.last() == x && p[0] == x);
        assert(graph::reaches(g, roots, x));
    }
    if reached(c, roots).contains(x) && c.contains_key(x) && c[x].parents.contains(y) {
        graph::law_walk_is_closed(g, roots, x, y);
    }
}

/// A push sends what the repository at the other end needs to list the files: with the objects of
/// a bundle alone, each commit of the bundle has the same paths and hashes as here, and the object
/// of each hash is sent. Nothing is said of the further objects in which the contents of a large
/// file lie.
pub proof fn law_push_sends_enough(
    cs: Seq<model::CommitView>,
    t: walk::TreesView,
    l: changes::LayersView,
    objs: Set<Seq<char>>,
    i: int,
)
    requires
        t.dom().finite(),
        0 <= i < cs.len(),
        first_unreadable(cs, t, l) is None,
        forall|h: Seq<char>| #[trigger] objs.contains(h) <==> any_needs(cs, t, l, h),
    ensures
        changes::effective(cs[i], t, l) is Ok,
        changes::effective(cs[i], t.restrict(objs), l.restrict(objs)) == changes::effective(cs[i], t, l),
        forall|p: Seq<char>|
            changes::effective(cs[i], t, l)->Ok_0.contains_key(p) ==> objs.contains(
                #[trigger] changes::effective(cs[i], t, l)->Ok_0[p],
            ),
{
    lemma_all_readable(cs, t, l, i);
    let u = t.restrict(objs);
    assert(u.dom() =~= t.dom().intersect(objs));
    assert forall|h: Seq<char>| needs(cs[i], t, l, h) implies #[trigger] objs.contains(h) by {
        assert(any_needs(cs, t, l, h));
    }
    law_needed_objects_suffice(cs[i], t, l, u, l.restrict(objs), objs);
}

proof fn lemma_all_readable(cs: Seq<model::CommitView>, t: walk::TreesView, l: changes::LayersView, i: int)
    requires
        0 <= i < cs.len(),
        first_unreadable(cs, t, l) is None,
    ensures
        changes::effective(cs[i], t, l) is Ok,
    decreases cs.len(),
{
    if i < cs.len() - 1 {
        lemma_all_readable(cs.drop_last(), t, l, i);
        assert(cs.drop_last()[i] == cs[i]);
    }
}

/// A walk over the commits begins at every branch and at HEAD, as far as they name anything.
pub proof fn law_walk_begins_at_branches_and_head(branches: Seq<Seq<char>>, head: Seq<char>, x: Seq<char>)
    ensures
        roots_of(branches, head).contains(x) <==> x.len() > 0 && (branches.contains(x) || x == head),
{
    let all = branches.push(head);
    text::lemma_nonempty_contains(all, x);
    strmap::lemma_push_contains(branches, head, x);
}

/// A commit is reached exactly where a row of commits leads from a root to it, each of them a
/// parent of the one before.
pub proof fn law_reached_exactly(c: history::CommitsView, roots: Seq<Seq<char>>, x: Seq<char>)
    requires
        c.dom().finite(),
    ensures
        reached(c, roots).contains(x) <==> exists|p: Seq<Seq<char>>|
            {
                &&& #[trigger] p.len() > 0
                &&& roots.contains(p[0])
                &&& p.last() == x
                &&& forall|i: int|
                    0 <= i < p.len() - 1 ==> c.contains_key(#[trigger] p[i]) && c[p[i]].parents.contains(p[i + 1])
            },
{
    let g = parent_links(c);
    assert(g.dom() =~= c.dom());
    graph::law_walk_is_reachability(g, roots);
    if reached(c, roots).contains(x) {
        assert(graph::reaches(g, roots, x));
        let p = choose|p: Seq<Seq<char>>| #[trigger] graph::is_path(g, p) && roots.contains(p[0]) && p.last() == x;
        assert forall|i: int| 0 <= i < p.len() - 1 implies c.contains_key(#[trigger] p[i]) && c[p[i]].parents.contains(
            p[i + 1],
        ) by {
            assert(g.contains_key(p[i]) && g[p[i]].contains(p[i + 1]));
        }
        assert(p.len() > 0);
    }
    if exists|p: Seq<Seq<char>>|
        {
            &&& #[trigger] p.len() > 0
            &&& roots.contains(p[0])
            &&& p.last() == x
            &&& forall|i: int|
                0 <= i < p.len() - 1 ==> c.contains_key(#[trigger] p[i]) && c[p[i]].parents.contains(p[i + 1])
        } {
        let p = choose|p: Seq<Seq<char>>|
            {
                &&& #[trigger] p.len() > 0
                &&& roots.contains(p[0])
                &&& p.last() == x
                &&& forall|i: int|
                    0 <= i < p.len() - 1 ==> c.contains_key(#[trigger] p[i]) && c[p[i]].parents.contains(p[i + 1])
            };
        assert(graph::is_path(g, p)) by {
            assert forall|i: int| 0 <= i < p.len() - 1 implies g.contains_key(#[trigger] p[i]) && g[p[i]].contains(
                p[i + 1],
            ) by {
                assert(c.contains_key(p[i]));
            }
        }
        assert(graph::reaches(g, roots, x));
    }
}

/// A commit needs its two trees, its layers, and, where they can be told, its files.
pub proof fn law_commit_needs_what_it_names(c: model::CommitView, t: walk::TreesView, l: changes::LayersView, p: Seq<char>)
    ensures
        needs(c, t, l, c.base_root),
        needs(c, t, l, c.effective_root),
        forall|i: int| 0 <= i < c.layers.len() ==> needs(c, t, l, #[trigger] c.layers[i]),
        changes::effective(c, t, l) is Ok && changes::effective(c, t, l)->Ok_0.contains_key(p) ==> needs(
            c,
            t,
            l,
            changes::effective(c, t, l)->Ok_0[p],
        ),
        walk::gathered(t, c.base_root, Set::empty()).subset_of(Set::new(|h: Seq<char>| needs(c, t, l, h))),
        walk::gathered(t, c.effective_root, Set::empty()).subset_of(Set::new(|h: Seq<char>| needs(c, t, l, h))),
{
    let first = walk::gathered(t, c.base_root, Set::empty());
    walk::lemma_gathered_grows(t, c.base_root, Set::empty());
    walk::lemma_gathered_grows(t, c.effective_root, first);
    walk::law_gathering_adds(t, c.effective_root, first);
    if changes::effective(c, t, l) is Ok {
        let m = changes::effective(c, t, l)->Ok_0;
        if m.contains_key(p) {
            assert(m.contains_value(m[p]));
        }
    }
    assert forall|i: int| 0 <= i < c.layers.len() implies needs(c, t, l, #[trigger] c.layers[i]) by {
        assert(c.layers.contains(c.layers[i]));
    }
}

/// A commit needs nothing else: any set that holds its layers, its files where they can be told,
/// its two trees, and with each tree that hangs on these what its entries name, holds all that
/// the commit needs. `inside` are the trees that hang on them.
pub proof fn law_commit_needs_nothing_else(
    c: model::CommitView,
    t: walk::TreesView,
    l: changes::LayersView,
    inside: Set<Seq<char>>,
    all: Set<Seq<char>>,
    h: Seq<char>,
)
    requires
        forall|i: int| 0 <= i < c.layers.len() ==> all.contains(#[trigger] c.layers[i]),
        changes::effective(c, t, l) is Ok ==> forall|p: Seq<char>|
            changes::effective(c, t, l)->Ok_0.contains_key(p) ==> all.contains(
                #[trigger] changes::effective(c, t, l)->Ok_0[p],
            ),
        inside.contains(c.base_root),
        inside.contains(c.effective_root),
        inside.subset_of(all),
        forall|x: Seq<char>, i: int|
            inside.contains(x) && t.contains_key(x) && 0 <= i < t[x].len() ==> all.contains((#[trigger] t[x][i]).hash)
                && (t[x][i].kind == "tree"@ ==> inside.contains(t[x][i].hash)),
        needs(c, t, l, h),
    ensures
        all.contains(h),
{
    let first = walk::gathered(t, c.base_root, Set::empty());
    walk::law_gathered_is_the_least(t, c.base_root, Set::empty(), inside, all);
    walk::law_gathered_is_the_least(t, c.effective_root, first, inside, all);
    if c.layers.contains(h) {
        let i = choose|i: int| 0 <= i < c.layers.len() && c.layers[i] == h;
        assert(all.contains(c.layers[i]));
    }
    if changes::effective(c, t, l) is Ok && changes::effective(c, t, l)->Ok_0.contains_value(h) {
        let m = changes::effective(c, t, l)->Ok_0;
        let p = choose|p: Seq<char>| m.dom().contains(p) && m[p] == h;
        assert(m.contains_key(p));
        assert(all.contains(m[p]));
    }
}

/// An object is kept exactly where a known commit that is reached needs it, and sent exactly where
/// a commit of the bundle does.
pub proof fn law_kept_and_sent_exactly(
    c: history::CommitsView,
    roots: Seq<Seq<char>>,
    cs: Seq<model::CommitView>,
    t: walk::TreesView,
    l: changes::LayersView,
    h: Seq<char>,
)
    ensures
        kept(c, roots, t, l, h) <==> exists|id: Seq<char>|
            reached(c, roots).contains(id) && #[trigger] c.contains_key(id) && needs(c[id], t, l, h),
        any_needs(cs, t, l, h) <==> exists|x: model::CommitView| #[trigger] cs.contains(x) && needs(x, t, l, h),
{
    if any_needs(cs, t, l, h) {
        let k = choose|k: int| 0 <= k < cs.len() && needs(#[trigger] cs[k], t, l, h);
        assert(cs.contains(cs[k]));
    }
    if exists|x: model::CommitView| #[trigger] cs.contains(x) && needs(x, t, l, h) {
        let x = choose|x: model::CommitView| #[trigger] cs.contains(x) && needs(x, t, l, h);
        let k = choose|k: int| 0 <= k < cs.len() && cs[k] == x;
        assert(needs(cs[k], t, l, h));
    }
}

/// A push fails exactly where the files of one of its commits cannot be told, and says so of the
/// first such commit.
pub proof fn law_push_fails_at_the_first_unreadable(cs: Seq<model::CommitView>, t: walk::TreesView, l: changes::LayersView)
    ensures
        first_unreadable(cs, t, l) is None <==> forall|i: int|
            0 <= i < cs.len() ==> changes::effective(#[trigger] cs[i], t, l) is Ok,
        first_unreadable(cs, t, l) is Some ==> exists|i: int|
            0 <= i < cs.len() && changes::effective(#[trigger] cs[i], t, l) == Err::<model::Files, CommitError>(
                first_unreadable(cs, t, l)->0,
            ) && forall|j: int| 0 <= j < i ==> changes::effective(#[trigger] cs[j], t, l) is Ok,
    decreases cs.len(),
{
    if cs.len() > 0 {
        let f = cs.drop_last();
        law_push_fails_at_the_first_unreadable(f, t, l);
        if first_unreadable(f, t, l) is Some {
            let i = choose|i: int|
                0 <= i < f.len() && changes::effective(#[trigger] f[i], t, l) == Err::<model::Files, CommitError>(
                    first_unreadable(f, t, l)->0,
                ) && forall|j: int| 0 <= j < i ==> changes::effective(#[trigger] f[j], t, l) is Ok;
            assert(cs[i] == f[i]);
            assert forall|j: int| 0 <= j < i implies changes::effective(#[trigger] cs[j], t, l) is Ok by {
                assert(cs[j] == f[j]);
            }
        } else {
            assert forall|j: int| 0 <= j < cs.len() - 1 implies changes::effective(#[trigger] cs[j], t, l) is Ok by {
                assert(f[j] == cs[j]);
            }
            assert(cs[cs.len() - 1] == cs.last());
        }
    }
}

} // verus!

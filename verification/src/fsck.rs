//! Checking a repository: whether all that its commits need can be read.

use vstd::prelude::*;
use vstd::string::*;

use crate::changes;
use crate::changes::{commit_effective_map, Layers};
use crate::commits;
use crate::history;
use crate::keep;
use crate::keep::reached_commits;
use crate::model;
use crate::model::{Commit, Commits, FileMap};
use crate::strmap;
use crate::strmap::StrSet;
use crate::text;
use crate::walk;
use crate::walk::Trees;

verus! {

/// Something that is wrong with a repository.
#[derive(Clone, Debug, PartialEq, Eq)]
pub enum Issue {
    /// A commit cannot be read.
    MissingCommit { id: String },
    /// The base tree of a commit cannot be read.
    BadBase { tree: String, commit: String },
    /// A layer of a commit cannot be read.
    BadLayer { layer: String, commit: String },
    /// The effective tree of a commit cannot be read.
    BadEffective { tree: String, commit: String },
    /// The contents of a file cannot be read.
    BadBlob { blob: String, commit: String },
    /// The files of a commit cannot be told.
    NoFiles { commit: String },
}

/// What an `Issue` says.
pub enum IssueView {
    MissingCommit { id: Seq<char> },
    BadBase { tree: Seq<char>, commit: Seq<char> },
    BadLayer { layer: Seq<char>, commit: Seq<char> },
    BadEffective { tree: Seq<char>, commit: Seq<char> },
    BadBlob { blob: Seq<char>, commit: Seq<char> },
    NoFiles { commit: Seq<char> },
}

impl View for Issue {
    type V = IssueView;

    open spec fn view(&self) -> IssueView {
        match self {
            Issue::MissingCommit { id } => IssueView::MissingCommit { id: id@ },
            Issue::BadBase { tree, commit } => IssueView::BadBase { tree: tree@, commit: commit@ },
            Issue::BadLayer { layer, commit } => IssueView::BadLayer { layer: layer@, commit: commit@ },
            Issue::BadEffective { tree, commit } => IssueView::BadEffective { tree: tree@, commit: commit@ },
            Issue::BadBlob { blob, commit } => IssueView::BadBlob { blob: blob@, commit: commit@ },
            Issue::NoFiles { commit } => IssueView::NoFiles { commit: commit@ },
        }
    }
}

/// What a list of issues says.
pub open spec fn issue_views(v: Seq<Issue>) -> Seq<IssueView> {
    v.map_values(|i: Issue| i@)
}

/// How an issue is told: `why` says why the commit cannot be read, where that is the issue.
pub open spec fn told(i: IssueView, why: Seq<char>) -> Option<Seq<char>> {
    match i {
        IssueView::MissingCommit { id } => Some("missing commit "@ + id + " "@ + why),
        IssueView::BadBase { tree, commit } => Some("bad base tree "@ + tree + " in "@ + commit),
        IssueView::BadLayer { layer, commit } => Some("bad layer "@ + layer + " in "@ + commit),
        IssueView::BadEffective { tree, commit } => Some("bad effective tree "@ + tree + " in "@ + commit),
        IssueView::BadBlob { blob, commit } => Some("bad blob "@ + blob + " referenced by "@ + commit),
        IssueView::NoFiles { commit } => None,
    }
}

fn four(a: &str, b: &str, c: &str, d: &str) -> (r: String)
    ensures
        r@ == a@ + b@ + c@ + d@,
{
    let mut s = text::concat(a, b);
    s.append(c);
    s.append(d);
    s
}

impl Issue {
    /// The line that tells of the issue, where there is one.
    pub fn message(&self, why: &str) -> (r: Option<String>)
        ensures
            model::opt_text(r) == told(self@, why@),
    {
        match self {
            Issue::MissingCommit { id } => Some(four("missing commit ", id.as_str(), " ", why)),
            Issue::BadBase { tree, commit } => Some(
                four("bad base tree ", tree.as_str(), " in ", commit.as_str()),
            ),
            Issue::BadLayer { layer, commit } => Some(
                four("bad layer ", layer.as_str(), " in ", commit.as_str()),
            ),
            Issue::BadEffective { tree, commit } => Some(
                four("bad effective tree ", tree.as_str(), " in ", commit.as_str()),
            ),
            Issue::BadBlob { blob, commit } => Some(
                four("bad blob ", blob.as_str(), " referenced by ", commit.as_str()),
            ),
            Issue::NoFiles { .. } => None,
        }
    }
}

// ---------------------------------------------------------------------------------------
// One commit
// ---------------------------------------------------------------------------------------
/// The layers of `hs` that cannot be read.
pub open spec fn bad_layers(hs: Seq<Seq<char>>, l: changes::LayersView, commit: Seq<char>) -> Seq<IssueView> {
    strmap::picked(hs, |h: Seq<char>| !l.contains_key(h)).map_values(
        |h: Seq<char>| IssueView::BadLayer { layer: h, commit },
    )
}

/// The files of `m`, in ascending order of their paths, whose contents cannot be read.
pub open spec fn bad_blobs(m: model::Files, blobs: Set<Seq<char>>, commit: Seq<char>) -> Seq<IssueView> {
    strmap::picked(strmap::ascending(m.dom()), |p: Seq<char>| !blobs.contains(m[p])).map_values(
        |p: Seq<char>| IssueView::BadBlob { blob: m[p], commit },
    )
}

/// The issues of one commit: of its base tree, its layers, its effective tree and its files,
/// in this order.
pub open spec fn commit_issues(
    c: model::CommitView,
    t: walk::TreesView,
    l: changes::LayersView,
    blobs: Set<Seq<char>>,
) -> Seq<IssueView> {
    (if t.contains_key(c.base_root) {
        Seq::empty()
    } else {
        seq![IssueView::BadBase { tree: c.base_root, commit: c.id }]
    }) + bad_layers(c.layers, l, c.id) + (if t.contains_key(c.effective_root) {
        Seq::empty()
    } else {
        seq![IssueView::BadEffective { tree: c.effective_root, commit: c.id }]
    }) + (match changes::effective(c, t, l) {
        Ok(m) => bad_blobs(m, blobs, c.id),
        Err(_) => seq![IssueView::NoFiles { commit: c.id }],
    })
}

fn add_bad_layers(out: &mut Vec<Issue>, c: &Commit, layers: &Layers)
    ensures
        issue_views(final(out)@) == issue_views(old(out)@) + bad_layers(c@.layers, layers@, c@.id),
{
    let ghost start = issue_views(out@);
    let ghost hs = c@.layers;
    let ghost pick = |h: Seq<char>| !layers@.contains_key(h);
    let ghost shape = |h: Seq<char>| IssueView::BadLayer { layer: h, commit: c@.id };
    let mut i: usize = 0;
    assert(start + strmap::picked(hs.take(0), pick).map_values(shape) =~= start);
    while i < c.layers.len()
        invariant
            i <= c.layers@.len(),
            hs == c@.layers,
            pick == (|h: Seq<char>| !layers@.contains_key(h)),
            shape == (|h: Seq<char>| IssueView::BadLayer { layer: h, commit: c@.id }),
            issue_views(out@) == start + strmap::picked(hs.take(i as int), pick).map_values(shape),
        decreases c.layers@.len() - i,
    {
        let h = &c.layers[i];
        let ghost before = issue_views(out@);
        proof {
            assert(hs.take(i + 1).drop_last() =~= hs.take(i as int));
            assert(hs.take(i + 1).last() == h@);
        }
        if !layers.contains_key(h.as_str()) {
            out.push(Issue::BadLayer { layer: h.clone(), commit: c.id.clone() });
            proof {
                let v = IssueView::BadLayer { layer: h@, commit: c@.id };
                assert(issue_views(out@) =~= before.push(v));
                assert(strmap::picked(hs.take(i + 1), pick).map_values(shape) =~= strmap::picked(
                    hs.take(i as int),
                    pick,
                ).map_values(shape).push(v));
                assert(before.push(v) =~= start + strmap::picked(hs.take(i + 1), pick).map_values(shape));
            }
        }
        i = i + 1;
    }
    assert(hs.take(i as int) =~= hs);
}

fn add_bad_blobs(out: &mut Vec<Issue>, files: &FileMap, blobs: &StrSet, commit: &String)
    ensures
        issue_views(final(out)@) == issue_views(old(out)@) + bad_blobs(files@, blobs@, commit@),
{
    let ghost start = issue_views(out@);
    let ghost m = files@;
    let n = files.len();
    let ghost ks = files.keys();
    let ghost pick = |p: Seq<char>| !blobs@.contains(m[p]);
    let ghost shape = |p: Seq<char>| IssueView::BadBlob { blob: m[p], commit: commit@ };
    let mut i: usize = 0;
    assert(start + strmap::picked(ks.take(0), pick).map_values(shape) =~= start);
    while i < n
        invariant
            i <= n == ks.len(),
            ks == files.keys(),
            m == files@,
            pick == (|p: Seq<char>| !blobs@.contains(m[p])),
            shape == (|p: Seq<char>| IssueView::BadBlob { blob: m[p], commit: commit@ }),
            issue_views(out@) == start + strmap::picked(ks.take(i as int), pick).map_values(shape),
        decreases n - i,
    {
        let h = files.value(i);
        let ghost before = issue_views(out@);
        proof {
            assert(ks.take(i + 1).drop_last() =~= ks.take(i as int));
            assert(ks.take(i + 1).last() == ks[i as int]);
        }
        if !blobs.contains(h.as_str()) {
            out.push(Issue::BadBlob { blob: h.clone(), commit: commit.clone() });
            proof {
                let v = IssueView::BadBlob { blob: h@, commit: commit@ };
                assert(issue_views(out@) =~= before.push(v));
                assert(strmap::picked(ks.take(i + 1), pick).map_values(shape) =~= strmap::picked(
                    ks.take(i as int),
                    pick,
                ).map_values(shape).push(v));
                assert(before.push(v) =~= start + strmap::picked(ks.take(i + 1), pick).map_values(shape));
            }
        }
        i = i + 1;
    }
    assert(ks.take(i as int) =~= ks);
}

fn add_commit_issues(out: &mut Vec<Issue>, c: &Commit, trees: &Trees, layers: &Layers, blobs: &StrSet)
    ensures
        issue_views(final(out)@) == issue_views(old(out)@) + commit_issues(c@, trees@, layers@, blobs@),
{
    let ghost start = issue_views(out@);
    if !trees.contains_key(c.base_root.as_str()) {
        out.push(Issue::BadBase { tree: c.base_root.clone(), commit: c.id.clone() });
    }
    let ghost s1 = issue_views(out@);
    assert(s1 =~= start + (if trees@.contains_key(c@.base_root) {
        Seq::empty()
    } else {
        seq![IssueView::BadBase { tree: c@.base_root, commit: c@.id }]
    }));
    add_bad_layers(out, c, layers);
    let ghost s2 = issue_views(out@);
    if !trees.contains_key(c.effective_root.as_str()) {
        out.push(Issue::BadEffective { tree: c.effective_root.clone(), commit: c.id.clone() });
    }
    let ghost s3 = issue_views(out@);
    assert(s3 =~= s2 + (if trees@.contains_key(c@.effective_root) {
        Seq::empty()
    } else {
        seq![IssueView::BadEffective { tree: c@.effective_root, commit: c@.id }]
    }));
    match commit_effective_map(c, trees, layers) {
        Ok(files) => {
            add_bad_blobs(out, &files, blobs, &c.id);
        },
        Err(_) => {
            out.push(Issue::NoFiles { commit: c.id.clone() });
            assert(issue_views(out@) =~= s3.push(IssueView::NoFiles { commit: c@.id }));
        },
    }
    assert(issue_views(out@) =~= start + commit_issues(c@, trees@, layers@, blobs@));
}

// ---------------------------------------------------------------------------------------
// A repository
// ---------------------------------------------------------------------------------------
/// The issues of the commits `ids`, one after the other.
pub open spec fn issues_of(
    ids: Seq<Seq<char>>,
    c: history::CommitsView,
    t: walk::TreesView,
    l: changes::LayersView,
    blobs: Set<Seq<char>>,
) -> Seq<IssueView>
    decreases ids.len(),
{
    if ids.len() == 0 {
        Seq::empty()
    } else {
        let id = ids.last();
        issues_of(ids.drop_last(), c, t, l, blobs) + (if c.contains_key(id) {
            commit_issues(c[id], t, l, blobs)
        } else {
            seq![IssueView::MissingCommit { id }]
        })
    }
}

/// All issues of a repository, in the order in which a walk from `roots` comes to the commits.
/// `blobs` are the objects that can be read as the contents of a file.
pub fn fsck(commits: &Commits, roots: &Vec<String>, trees: &Trees, layers: &Layers, blobs: &StrSet) -> (r: Vec<Issue>)
    ensures
        issue_views(r@) == issues_of(
            keep::reached(commits@, text::texts(roots@)),
            commits@,
            trees@,
            layers@,
            blobs@,
        ),
{
    let ids = reached_commits(commits, roots);
    let ghost order = text::texts(ids@);
    let mut out: Vec<Issue> = Vec::new();
    let mut i: usize = 0;
    assert(issue_views(out@) =~= Seq::empty());
    assert(order.take(0) =~= Seq::empty());
    while i < ids.len()
        invariant
            i <= ids@.len(),
            order == text::texts(ids@),
            issue_views(out@) == issues_of(order.take(i as int), commits@, trees@, layers@, blobs@),
        decreases ids@.len() - i,
    {
        let ghost before = issue_views(out@);
        proof {
            assert(order.take(i + 1).drop_last() =~= order.take(i as int));
            assert(order.take(i + 1).last() == ids@[i as int]@);
        }
        match commits.get(ids[i].as_str()) {
            Some(c) => {
                add_commit_issues(&mut out, c, trees, layers, blobs);
            },
            None => {
                out.push(Issue::MissingCommit { id: ids[i].clone() });
                assert(issue_views(out@) =~= before + seq![
                    IssueView::MissingCommit { id: ids@[i as int]@ },
                ]);
            },
        }
        i = i + 1;
    }
    assert(order.take(i as int) =~= order);
    out
}

// ---------------------------------------------------------------------------------------
// Laws
// ---------------------------------------------------------------------------------------
/// All that a commit needs can be read.
pub open spec fn commit_sound(
    c: model::CommitView,
    t: walk::TreesView,
    l: changes::LayersView,
    blobs: Set<Seq<char>>,
) -> bool {
    &&& t.contains_key(c.base_root)
    &&& t.contains_key(c.effective_root)
    &&& changes::effective(c, t, l) is Ok
    &&& forall|p: Seq<char>|
        changes::effective(c, t, l)->Ok_0.contains_key(p) ==> blobs.contains(
            #[trigger] changes::effective(c, t, l)->Ok_0[p],
        )
}

proof fn lemma_layered_known(m: model::Files, l: changes::LayersView, hs: Seq<Seq<char>>)
    requires
        changes::layered(m, l, hs) is Some,
    ensures
        forall|h: Seq<char>| #[trigger] hs.contains(h) ==> l.contains_key(h),
    decreases hs.len(),
{
    if hs.len() > 0 {
        let f = hs.drop_last();
        lemma_layered_known(m, l, f);
        assert(hs =~= f.push(hs.last()));
        assert forall|h: Seq<char>| #[trigger] hs.contains(h) implies l.contains_key(h) by {
            strmap::lemma_push_contains(f, hs.last(), h);
        }
    }
}

proof fn lemma_no_commit_issues(
    c: model::CommitView,
    t: walk::TreesView,
    l: changes::LayersView,
    blobs: Set<Seq<char>>,
)
    requires
        t.dom().finite(),
        changes::effective(c, t, l) is Ok ==> changes::effective(c, t, l)->Ok_0.dom().finite(),
    ensures
        commit_issues(c, t, l, blobs).len() == 0 <==> commit_sound(c, t, l, blobs),
{
    let bl = strmap::picked(c.layers, |h: Seq<char>| !l.contains_key(h));
    strmap::lemma_picked_contains(c.layers, |h: Seq<char>| !l.contains_key(h));
    assert(bad_layers(c.layers, l, c.id).len() == bl.len());
    match changes::effective(c, t, l) {
        Ok(m) => {
            let base = walk::flat(t, c.base_root)->Ok_0;
            lemma_layered_known(base, l, c.layers);
            if bl.len() > 0 {
                assert(bl.contains(bl[0]));
            }
            let ps = strmap::lemma_listed(m.dom());
            let pick = |p: Seq<char>| !blobs.contains(m[p]);
            let bb = strmap::picked(ps, pick);
            strmap::lemma_picked_contains(ps, pick);
            assert(bad_blobs(m, blobs, c.id).len() == bb.len());
            if bb.len() == 0 {
                assert forall|p: Seq<char>| m.contains_key(p) implies blobs.contains(#[trigger] m[p]) by {
                    assert(m.dom().contains(p));
                    assert(ps.contains(p));
                    if !blobs.contains(m[p]) {
                        assert(bb.contains(p));
                    }
                }
            } else {
                assert(bb.contains(bb[0]));
                assert(ps.contains(bb[0]));
                assert(m.dom().contains(bb[0]));
                assert(!blobs.contains(m[bb[0]]));
            }
        },
        Err(_) => {},
    }
}

/// A repository has no issue exactly where every commit that can be reached is known and all
/// that it needs can be read.
pub proof fn law_fsck_is_exact(
    ids: Seq<Seq<char>>,
    c: history::CommitsView,
    t: walk::TreesView,
    l: changes::LayersView,
    blobs: Set<Seq<char>>,
)
    requires
        t.dom().finite(),
    ensures
        issues_of(ids, c, t, l, blobs).len() == 0 <==> forall|id: Seq<char>| #[trigger]
            ids.contains(id) ==> c.contains_key(id) && commit_sound(c[id], t, l, blobs),
    decreases ids.len(),
{
    if ids.len() > 0 {
        let f = ids.drop_last();
        let last = ids.last();
        law_fsck_is_exact(f, c, t, l, blobs);
        assert(ids =~= f.push(last));
        if c.contains_key(last) {
            if changes::effective(c[last], t, l) is Ok {
                lemma_files_finite(c[last], t, l);
            }
            lemma_no_commit_issues(c[last], t, l, blobs);
        }
        assert(ids.contains(last));
        if issues_of(ids, c, t, l, blobs).len() == 0 {
            assert forall|id: Seq<char>| #[trigger] ids.contains(id) implies c.contains_key(id) && commit_sound(
                c[id],
                t,
                l,
                blobs,
            ) by {
                strmap::lemma_push_contains(f, last, id);
                if id != last {
                    assert(f.contains(id));
                }
            }
        } else if forall|id: Seq<char>| #[trigger]
            ids.contains(id) ==> c.contains_key(id) && commit_sound(c[id], t, l, blobs) {
            assert forall|id: Seq<char>| #[trigger] f.contains(id) implies c.contains_key(id) && commit_sound(
                c[id],
                t,
                l,
                blobs,
            ) by {
                strmap::lemma_push_contains(f, last, id);
                assert(ids.contains(id));
            }
        }
    }
}

proof fn lemma_files_finite(c: model::CommitView, t: walk::TreesView, l: changes::LayersView)
    requires
        changes::effective(c, t, l) is Ok,
    ensures
        changes::effective(c, t, l)->Ok_0.dom().finite(),
{
    let base = walk::flat(t, c.base_root)->Ok_0;
    walk::lemma_flat_finite(t, t.dom().len(), Seq::empty(), c.base_root, Map::empty());
    changes::lemma_layered_finite(base, l, c.layers);
}

/// Collecting garbage leaves a sound repository sound: once only the kept trees and layers are
/// left, no issue has come up. Of a kept file it is required that its contents can still be
/// read, since those of a large file lie in further objects.
pub proof fn law_gc_keeps_soundness(
    c: history::CommitsView,
    roots: Seq<Seq<char>>,
    t: walk::TreesView,
    l: changes::LayersView,
    keep: Set<Seq<char>>,
    before: Set<Seq<char>>,
    after: Set<Seq<char>>,
)
    requires
        t.dom().finite(),
        forall|h: Seq<char>| #[trigger] keep.contains(h) <==> keep::kept(c, roots, t, l, h),
        forall|h: Seq<char>| keep.contains(h) && #[trigger] before.contains(h) ==> after.contains(h),
        issues_of(keep::reached(c, roots), c, t, l, before).len() == 0,
    ensures
        issues_of(keep::reached(c, roots), c, t.restrict(keep), l.restrict(keep), after).len() == 0,
{
    let ids = keep::reached(c, roots);
    let u = t.restrict(keep);
    let k = l.restrict(keep);
    assert(u.dom() =~= t.dom().intersect(keep));
    law_fsck_is_exact(ids, c, t, l, before);
    law_fsck_is_exact(ids, c, u, k, after);
    assert forall|id: Seq<char>| #[trigger] ids.contains(id) implies c.contains_key(id) && commit_sound(
        c[id],
        u,
        k,
        after,
    ) by {
        assert(commit_sound(c[id], t, l, before));
        keep::law_gc_keeps_reachable_commits(c, roots, t, l, keep, id);
        let first = walk::gathered(t, c[id].base_root, Set::empty());
        walk::lemma_gathered_grows(t, c[id].base_root, Set::empty());
        walk::lemma_gathered_grows(t, c[id].effective_root, first);
        assert(keep::needs(c[id], t, l, c[id].base_root));
        assert(keep::needs(c[id], t, l, c[id].effective_root));
        assert(keep::kept(c, roots, t, l, c[id].base_root));
        assert(keep::kept(c, roots, t, l, c[id].effective_root));
        assert(keep.contains(c[id].base_root));
        assert(keep.contains(c[id].effective_root));
        let m = changes::effective(c[id], t, l)->Ok_0;
        assert forall|p: Seq<char>| m.contains_key(p) implies after.contains(#[trigger] m[p]) by {
            assert(before.contains(m[p]));
        }
    }
}

/// A commit on top of a sound one is sound, squashed or not. This needs that its layer, the tree
/// of its files and the contents of the staged files are stored, and that what is staged both to
/// be put and to be deleted is there to be deleted.
pub proof fn law_commit_stays_sound(
    old: model::CommitView,
    idx: model::IndexView,
    old_id: Seq<char>,
    message: Seq<char>,
    layer: Seq<char>,
    root: Seq<char>,
    seq: u64,
    ts: i64,
    t: walk::TreesView,
    l: changes::LayersView,
    blobs: Set<Seq<char>>,
)
    requires
        commit_sound(old, t, l, blobs),
        idx.put.dom().finite(),
        idx.del.finite(),
        forall|p: Seq<char>|
            #[trigger] idx.put.contains_key(p) && idx.del.contains(p) ==> changes::effective(
                old,
                t,
                l,
            )->Ok_0.contains_key(p),
        l.contains_key(layer),
        l[layer] == changes::layer_changes(changes::effective(old, t, l)->Ok_0, idx),
        walk::flat(t, root) == Ok::<model::Files, walk::TreeError>(
            changes::staged(changes::effective(old, t, l)->Ok_0, idx),
        ),
        forall|p: Seq<char>| #[trigger] idx.put.contains_key(p) ==> blobs.contains(idx.put[p].hash),
    ensures
        commit_sound(commits::next_commit(old, old_id, message, layer, root, seq, ts), t, l, blobs),
{
    let c = commits::next_commit(old, old_id, message, layer, root, seq, ts);
    let m = changes::effective(old, t, l)->Ok_0;
    commits::law_commit_holds_what_was_staged(old, idx, old_id, message, layer, root, seq, ts, t, l);
    let after = changes::staged(m, idx);
    assert(changes::effective(c, t, l)->Ok_0 == after);
    assert forall|p: Seq<char>| after.contains_key(p) implies blobs.contains(#[trigger] after[p]) by {
        if idx.put.contains_key(p) {
            assert(after[p] == idx.put[p].hash);
        } else {
            assert(after[p] == m[p]);
        }
    }
}

/// A commit that a rebase makes anew on top of a sound one is sound, provided that the old commit
/// is sound, and that the tree of its files is stored.
pub proof fn law_rebased_commit_stays_sound(
    old: model::CommitView,
    parent: model::CommitView,
    before: model::Files,
    parent_id: Seq<char>,
    root: Seq<char>,
    seq: u64,
    ts: i64,
    t: walk::TreesView,
    l: changes::LayersView,
    blobs: Set<Seq<char>>,
)
    requires
        commit_sound(old, t, l, blobs),
        commit_sound(parent, t, l, blobs),
        walk::flat(t, root) == Ok::<model::Files, walk::TreeError>(
            changes::replayed(
                changes::effective(parent, t, l)->Ok_0,
                before,
                changes::effective(old, t, l)->Ok_0,
            ),
        ),
    ensures
        commit_sound(commits::rebased(old, parent_id, root, seq, ts), t, l, blobs),
{
    let c = commits::rebased(old, parent_id, root, seq, ts);
    let p0 = changes::effective(parent, t, l)->Ok_0;
    let o = changes::effective(old, t, l)->Ok_0;
    let after = changes::replayed(p0, before, o);
    commits::law_rebased_commit_holds_its_tree(old, parent_id, root, seq, ts, t, l);
    assert forall|p: Seq<char>| after.contains_key(p) implies blobs.contains(#[trigger] after[p]) by {
        if changes::patch_put(before, o).contains_key(p) {
            assert(after[p] == o[p]);
        } else {
            assert(after[p] == p0[p]);
        }
    }
}

/// A repository has no issue exactly where of every commit that is reached the commit itself, its
/// two trees, its layers and the contents of all its files can be read.
pub proof fn law_no_issue_exactly(
    ids: Seq<Seq<char>>,
    c: history::CommitsView,
    t: walk::TreesView,
    l: changes::LayersView,
    blobs: Set<Seq<char>>,
)
    requires
        t.dom().finite(),
    ensures
        issues_of(ids, c, t, l, blobs).len() == 0 <==> forall|id: Seq<char>| #[trigger]
            ids.contains(id) ==> {
                &&& c.contains_key(id)
                &&& t.contains_key(c[id].base_root)
                &&& t.contains_key(c[id].effective_root)
                &&& forall|i: int| 0 <= i < c[id].layers.len() ==> l.contains_key(#[trigger] c[id].layers[i])
                &&& changes::effective(c[id], t, l) is Ok
                &&& forall|p: Seq<char>|
                    changes::effective(c[id], t, l)->Ok_0.contains_key(p) ==> blobs.contains(
                        #[trigger] changes::effective(c[id], t, l)->Ok_0[p],
                    )
            },
{
    law_fsck_is_exact(ids, c, t, l, blobs);
    assert forall|id: Seq<char>| #[trigger] ids.contains(id) && c.contains_key(id) && commit_sound(c[id], t, l, blobs) implies forall|
        i: int,
    | 0 <= i < c[id].layers.len() ==> l.contains_key(#[trigger] c[id].layers[i]) by {
        let base = walk::flat(t, c[id].base_root)->Ok_0;
        lemma_layered_known(base, l, c[id].layers);
        assert forall|i: int| 0 <= i < c[id].layers.len() implies l.contains_key(#[trigger] c[id].layers[i]) by {
            assert(c[id].layers.contains(c[id].layers[i]));
        }
    }
}

/// Each fault of a commit is told by its kind, with what is broken and the commit that names it,
/// and nothing is told that is no fault.
pub proof fn law_faults_of_a_commit_are_told(
    c: model::CommitView,
    t: walk::TreesView,
    l: changes::LayersView,
    blobs: Set<Seq<char>>,
    x: Seq<char>,
)
    requires
        t.dom().finite(),
    ensures
        commit_issues(c, t, l, blobs).contains(IssueView::BadBase { tree: x, commit: c.id }) <==> x == c.base_root
            && !t.contains_key(x),
        commit_issues(c, t, l, blobs).contains(IssueView::BadEffective { tree: x, commit: c.id }) <==> x
            == c.effective_root && !t.contains_key(x),
        commit_issues(c, t, l, blobs).contains(IssueView::BadLayer { layer: x, commit: c.id }) <==> c.layers.contains(x)
            && !l.contains_key(x),
        commit_issues(c, t, l, blobs).contains(IssueView::BadBlob { blob: x, commit: c.id }) <==> changes::effective(
            c,
            t,
            l,
        ) is Ok && changes::effective(c, t, l)->Ok_0.contains_value(x) && !blobs.contains(x),
        commit_issues(c, t, l, blobs).contains(IssueView::NoFiles { commit: c.id }) <==> changes::effective(c, t, l) is Err,
{
    let a = if t.contains_key(c.base_root) {
        Seq::<IssueView>::empty()
    } else {
        seq![IssueView::BadBase { tree: c.base_root, commit: c.id }]
    };
    let b = bad_layers(c.layers, l, c.id);
    let d = if t.contains_key(c.effective_root) {
        Seq::<IssueView>::empty()
    } else {
        seq![IssueView::BadEffective { tree: c.effective_root, commit: c.id }]
    };
    let e = match changes::effective(c, t, l) {
        Ok(m) => bad_blobs(m, blobs, c.id),
        Err(_) => seq![IssueView::NoFiles { commit: c.id }],
    };
    let all = commit_issues(c, t, l, blobs);
    assert(all == a + b + d + e);
    let bl = strmap::picked(c.layers, |h: Seq<char>| !l.contains_key(h));
    strmap::lemma_picked_contains(c.layers, |h: Seq<char>| !l.contains_key(h));
    let i1 = IssueView::BadBase { tree: x, commit: c.id };
    let i2 = IssueView::BadLayer { layer: x, commit: c.id };
    let i3 = IssueView::BadEffective { tree: x, commit: c.id };
    let i4 = IssueView::BadBlob { blob: x, commit: c.id };
    let i5 = IssueView::NoFiles { commit: c.id };
    lemma_in_four(a, b, d, e, i1);
    lemma_in_four(a, b, d, e, i2);
    lemma_in_four(a, b, d, e, i3);
    lemma_in_four(a, b, d, e, i4);
    lemma_in_four(a, b, d, e, i5);
    if !t.contains_key(c.base_root) {
        assert(a[0] == (IssueView::BadBase { tree: c.base_root, commit: c.id }));
    }
    if !t.contains_key(c.effective_root) {
        assert(d[0] == (IssueView::BadEffective { tree: c.effective_root, commit: c.id }));
    }
    assert(b.contains(i2) <==> bl.contains(x)) by {
        if bl.contains(x) {
            let k = choose|k: int| 0 <= k < bl.len() && bl[k] == x;
            assert(b[k] == i2);
        }
        if b.contains(i2) {
            let k = choose|k: int| 0 <= k < b.len() && b[k] == i2;
            assert(bl[k] == x);
        }
    }
    match changes::effective(c, t, l) {
        Ok(m) => {
            lemma_files_finite(c, t, l);
            let ps = strmap::lemma_listed(m.dom());
            let pick = |p: Seq<char>| !blobs.contains(m[p]);
            let bb = strmap::picked(ps, pick);
            strmap::lemma_picked_contains(ps, pick);
            if m.contains_value(x) && !blobs.contains(x) {
                let p = choose|p: Seq<char>| m.dom().contains(p) && m[p] == x;
                assert(ps.contains(p));
                assert(bb.contains(p));
                let k = choose|k: int| 0 <= k < bb.len() && bb[k] == p;
                assert(e[k] == i4);
            }
            if e.contains(i4) {
                let k = choose|k: int| 0 <= k < e.len() && e[k] == i4;
                assert(bb.contains(bb[k]));
                assert(ps.contains(bb[k]));
                assert(m.dom().contains(bb[k]));
                assert(m[bb[k]] == x);
            }
        },
        Err(_) => {
            assert(e[0] == i5);
        },
    }
}

proof fn lemma_in_four<A>(a: Seq<A>, b: Seq<A>, d: Seq<A>, e: Seq<A>, x: A)
    ensures
        (a + b + d + e).contains(x) <==> a.contains(x) || b.contains(x) || d.contains(x) || e.contains(x),
{
    let all = a + b + d + e;
    if a.contains(x) {
        let k = choose|k: int| 0 <= k < a.len() && a[k] == x;
        assert(all[k] == x);
    }
    if b.contains(x) {
        let k = choose|k: int| 0 <= k < b.len() && b[k] == x;
        assert(all[a.len() + k] == x);
    }
    if d.contains(x) {
        let k = choose|k: int| 0 <= k < d.len() && d[k] == x;
        assert(all[a.len() + b.len() + k] == x);
    }
    if e.contains(x) {
        let k = choose|k: int| 0 <= k < e.len() && e[k] == x;
        assert(all[a.len() + b.len() + d.len() + k] == x);
    }
    if all.contains(x) {
        let k = choose|k: int| 0 <= k < all.len() && all[k] == x;
        if k < a.len() {
            assert(a[k] == x);
        } else if k < a.len() + b.len() {
            assert(b[k - a.len()] == x);
        } else if k < a.len() + b.len() + d.len() {
            assert(d[k - a.len() - b.len()] == x);
        } else {
            assert(e[k - a.len() - b.len() - d.len()] == x);
        }
    }
}

/// The issues of a repository are those of its commits one after the other, and that a commit
/// cannot be read where that is so.
pub proof fn law_issues_are_those_of_the_commits(
    ids: Seq<Seq<char>>,
    id: Seq<char>,
    c: history::CommitsView,
    t: walk::TreesView,
    l: changes::LayersView,
    blobs: Set<Seq<char>>,
)
    ensures
        issues_of(Seq::empty(), c, t, l, blobs).len() == 0,
        c.contains_key(id) ==> issues_of(ids.push(id), c, t, l, blobs) == issues_of(ids, c, t, l, blobs)
            + commit_issues(c[id], t, l, blobs),
        !c.contains_key(id) ==> issues_of(ids.push(id), c, t, l, blobs) == issues_of(ids, c, t, l, blobs).push(
            IssueView::MissingCommit { id },
        ),
{
    assert(ids.push(id).drop_last() =~= ids);
    if !c.contains_key(id) {
        assert(issues_of(ids.push(id), c, t, l, blobs) =~= issues_of(ids, c, t, l, blobs).push(
            IssueView::MissingCommit { id },
        ));
    }
}

/// What is told of an issue names what is broken and the commit that names it.
pub proof fn law_issues_name_what_is_broken(x: Seq<char>, c: Seq<char>, why: Seq<char>)
    ensures
        told(IssueView::MissingCommit { id: x }, why) == Some("missing commit "@ + x + " "@ + why),
        told(IssueView::BadBase { tree: x, commit: c }, why) == Some("bad base tree "@ + x + " in "@ + c),
        told(IssueView::BadLayer { layer: x, commit: c }, why) == Some("bad layer "@ + x + " in "@ + c),
        told(IssueView::BadEffective { tree: x, commit: c }, why) == Some("bad effective tree "@ + x + " in "@ + c),
        told(IssueView::BadBlob { blob: x, commit: c }, why) == Some("bad blob "@ + x + " referenced by "@ + c),
        told(IssueView::NoFiles { commit: c }, why) is None,
{
}

/// Issues say what their fields hold.
pub proof fn law_issues_say_their_fields(v: Seq<Issue>, x: Issue, i: int)
    ensures
        issue_views(v).len() == v.len(),
        0 <= i < v.len() ==> issue_views(v)[i] == v[i]@,
        match x {
            Issue::MissingCommit { id } => x@ == (IssueView::MissingCommit { id: id@ }),
            Issue::BadBase { tree, commit } => x@ == (IssueView::BadBase { tree: tree@, commit: commit@ }),
            Issue::BadLayer { layer, commit } => x@ == (IssueView::BadLayer { layer: layer@, commit: commit@ }),
            Issue::BadEffective { tree, commit } => x@ == (IssueView::BadEffective { tree: tree@, commit: commit@ }),
            Issue::BadBlob { blob, commit } => x@ == (IssueView::BadBlob { blob: blob@, commit: commit@ }),
            Issue::NoFiles { commit } => x@ == (IssueView::NoFiles { commit: commit@ }),
        },
{
}

} // verus!

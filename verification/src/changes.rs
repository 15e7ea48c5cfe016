//! Changes between sets of files: layers, what is staged, differences and patches.

use vstd::prelude::*;
use vstd::string::*;

use crate::model;
use crate::model::{copy_files, Commit, FileMap, Index, Layer, LayerChange};
use crate::strmap;
use crate::strmap::{StrMap, StrSet};
use crate::text;
use crate::walk;
use crate::walk::{flatten_tree, TreeError, Trees};

verus! {

// ---------------------------------------------------------------------------------------
// Layers
// ---------------------------------------------------------------------------------------
/// The files after one change.
pub open spec fn changed(m: model::Files, c: model::ChangeView) -> model::Files {
    match c {
        model::ChangeView::Put { path, hash } => m.insert(path, hash),
        model::ChangeView::Del { path } => m.remove(path),
    }
}

/// The files after a row of changes.
pub open spec fn all_changed(m: model::Files, cs: Seq<model::ChangeView>) -> model::Files
    decreases cs.len(),
{
    if cs.len() == 0 {
        m
    } else {
        changed(all_changed(m, cs.drop_last()), cs.last())
    }
}

/// Makes the changes of a layer.
pub fn apply_layer(files: &mut FileMap, layer: &Layer)
    ensures
        final(files)@ == all_changed(old(files)@, layer@),
{
    let ghost start = files@;
    let mut i: usize = 0;
    assert(layer@.take(0) =~= Seq::empty());
    while i < layer.changes.len()
        invariant
            i <= layer.changes@.len(),
            files@ == all_changed(start, layer@.take(i as int)),
        decreases layer.changes@.len() - i,
    {
        proof {
            assert(layer@.take(i + 1).drop_last() =~= layer@.take(i as int));
            assert(layer@.take(i + 1).last() == layer.changes@[i as int]@);
        }
        match &layer.changes[i] {
            LayerChange::Put { path, hash } => {
                files.insert(path.clone(), hash.clone());
            },
            LayerChange::Del { path } => {
                files.remove(path.as_str());
            },
        }
        i = i + 1;
    }
    assert(layer@.take(i as int) =~= layer@);
}

/// The layers that could be read, each under its hash.
pub type Layers = StrMap<Layer>;

/// What `Layers` says.
pub type LayersView = Map<Seq<char>, Seq<model::ChangeView>>;

/// The files after the layers `hs`, or `None` where one of them cannot be read.
pub open spec fn layered(m: model::Files, l: LayersView, hs: Seq<Seq<char>>) -> Option<model::Files>
    decreases hs.len(),
{
    if hs.len() == 0 {
        Some(m)
    } else {
        match layered(m, l, hs.drop_last()) {
            Some(x) => if l.contains_key(hs.last()) {
                Some(all_changed(x, l[hs.last()]))
            } else {
                None
            },
            None => None,
        }
    }
}

/// Why the files of a commit cannot be told.
#[derive(Clone, Copy, Debug, PartialEq, Eq, Structural)]
pub enum CommitError {
    /// Its base tree cannot be flattened.
    Base(TreeError),
    /// One of its layers cannot be read.
    Layer,
}

/// The files of a commit: those of its base tree, with its layers on top.
pub open spec fn effective(c: model::CommitView, t: walk::TreesView, l: LayersView) -> Result<model::Files, CommitError> {
    match walk::flat(t, c.base_root) {
        Err(e) => Err(CommitError::Base(e)),
        Ok(base) => match layered(base, l, c.layers) {
            Some(m) => Ok(m),
            None => Err(CommitError::Layer),
        },
    }
}

proof fn lemma_layered_none(m: model::Files, l: LayersView, hs: Seq<Seq<char>>, k: int)
    requires
        0 <= k <= hs.len(),
        layered(m, l, hs.take(k)) is None,
    ensures
        layered(m, l, hs) is None,
    decreases hs.len() - k,
{
    if k < hs.len() {
        assert(hs.take(k + 1).drop_last() =~= hs.take(k));
        lemma_layered_none(m, l, hs, k + 1);
    } else {
        assert(hs.take(k) =~= hs);
    }
}

proof fn lemma_changed_finite(m: model::Files, cs: Seq<model::ChangeView>)
    requires
        m.dom().finite(),
    ensures
        all_changed(m, cs).dom().finite(),
    decreases cs.len(),
{
    if cs.len() > 0 {
        lemma_changed_finite(m, cs.drop_last());
    }
}

/// Layers on top of finitely many files leave finitely many.
pub proof fn lemma_layered_finite(m: model::Files, l: LayersView, hs: Seq<Seq<char>>)
    requires
        m.dom().finite(),
        layered(m, l, hs) is Some,
    ensures
        layered(m, l, hs)->0.dom().finite(),
    decreases hs.len(),
{
    if hs.len() > 0 {
        lemma_layered_finite(m, l, hs.drop_last());
        lemma_changed_finite(layered(m, l, hs.drop_last())->0, l[hs.last()]);
    }
}

/// The files of a commit.
pub fn commit_effective_map(c: &Commit, trees: &Trees, layers: &Layers) -> (r: Result<FileMap, CommitError>)
    ensures
        match effective(c@, trees@, layers@) {
            Ok(m) => r is Ok && r->Ok_0@ == m,
            Err(e) => r is Err && r->Err_0 == e,
        },
{
    let mut out = match flatten_tree(trees, c.base_root.as_str()) {
        Ok(m) => m,
        Err(e) => {
            return Err(CommitError::Base(e));
        },
    };
    let ghost base = out@;
    let ghost hs = c@.layers;
    let mut i: usize = 0;
    assert(hs.take(0) =~= Seq::empty());
    while i < c.layers.len()
        invariant
            i <= c.layers@.len(),
            hs == c@.layers,
            walk::flat(trees@, c@.base_root) == Ok::<model::Files, TreeError>(base),
            layered(base, layers@, hs.take(i as int)) == Some(out@),
        decreases c.layers@.len() - i,
    {
        proof {
            assert(hs.take(i + 1).drop_last() =~= hs.take(i as int));
            assert(hs.take(i + 1).last() == c.layers@[i as int]@);
        }
        match layers.get(c.layers[i].as_str()) {
            Some(layer) => {
                apply_layer(&mut out, layer);
            },
            None => {
                proof {
                    lemma_layered_none(base, layers@, hs, i + 1);
                }
                return Err(CommitError::Layer);
            },
        }
        i = i + 1;
    }
    assert(hs.take(i as int) =~= hs);
    Ok(out)
}

// ---------------------------------------------------------------------------------------
// What is staged
// ---------------------------------------------------------------------------------------
/// The files of `parent` with what is staged: the files to put are put, then the files to
/// delete are gone.
pub open spec fn staged(parent: model::Files, idx: model::IndexView) -> model::Files {
    Map::new(
        |p: Seq<char>| !idx.del.contains(p) && (idx.put.contains_key(p) || parent.contains_key(p)),
        |p: Seq<char>|
            if idx.put.contains_key(p) {
                idx.put[p].hash
            } else {
                parent[p]
            },
    )
}

/// The files of `parent` with what is staged.
pub fn staged_target(parent: &FileMap, idx: &Index) -> (r: FileMap)
    ensures
        r@ == staged(parent@, idx@),
{
    let mut out = copy_files(parent);
    let n = idx.put.len();
    let ghost ks = idx.put.keys();
    let mut i: usize = 0;
    while i < n
        invariant
            i <= n == ks.len(),
            ks == idx.put.keys(),
            strmap::lists(ks, idx.put@.dom()),
            forall|p: Seq<char>|
                #[trigger] out@.contains_key(p) <==> parent@.contains_key(p) || ks.take(i as int).contains(p),
            forall|p: Seq<char>|
                #[trigger] out@.contains_key(p) ==> out@[p] == (if ks.take(i as int).contains(p) {
                    idx.put@[p].hash
                } else {
                    parent@[p]
                }),
        decreases n - i,
    {
        let ghost before = out@;
        let ghost seen = ks.take(i as int);
        out.insert(idx.put.key(i).clone(), idx.put.value(i).hash.clone());
        proof {
            assert(ks.take(i + 1) =~= seen.push(ks[i as int]));
            assert forall|p: Seq<char>|
                (#[trigger] out@.contains_key(p) <==> parent@.contains_key(p) || ks.take(i + 1).contains(p))
                    && (out@.contains_key(p) ==> out@[p] == (if ks.take(i + 1).contains(p) {
                    idx.put@[p].hash
                } else {
                    parent@[p]
                })) by {
                strmap::lemma_push_contains(seen, ks[i as int], p);
                assert(before.contains_key(p) <==> parent@.contains_key(p) || seen.contains(p));
            }
        }
        i = i + 1;
    }
    assert(ks.take(i as int) =~= ks);
    let ghost mid = out@;
    let m = idx.del.len();
    let ghost ds = idx.del.items();
    let mut j: usize = 0;
    while j < m
        invariant
            j <= m == ds.len(),
            ds == idx.del.items(),
            strmap::lists(ds, idx.del@),
            forall|p: Seq<char>|
                #[trigger] out@.contains_key(p) <==> mid.contains_key(p) && !ds.take(j as int).contains(p),
            forall|p: Seq<char>| #[trigger] out@.contains_key(p) ==> out@[p] == mid[p],
        decreases m - j,
    {
        let ghost before = out@;
        let ghost seen = ds.take(j as int);
        out.remove(idx.del.item(j).as_str());
        proof {
            assert(ds.take(j + 1) =~= seen.push(ds[j as int]));
            assert forall|p: Seq<char>|
                #[trigger] out@.contains_key(p) <==> mid.contains_key(p) && !ds.take(j + 1).contains(p) by {
                strmap::lemma_push_contains(seen, ds[j as int], p);
                assert(before.contains_key(p) <==> mid.contains_key(p) && !seen.contains(p));
            }
        }
        j = j + 1;
    }
    proof {
        assert(ds.take(j as int) =~= ds);
        let want = staged(parent@, idx@);
        assert forall|p: Seq<char>|
            (#[trigger] out@.contains_key(p) <==> want.contains_key(p)) && (out@.contains_key(p) ==> out@[p]
                == want[p]) by {
            assert(idx.del@.contains(p) <==> ds.contains(p));
            assert(idx.put@.dom().contains(p) <==> ks.contains(p));
            assert(mid.contains_key(p) <==> parent@.contains_key(p) || ks.contains(p));
        }
        assert(out@.dom() =~= want.dom());
        assert(out@ =~= want);
    }
    out
}

/// The staged files whose hash the parent does not have at their path.
pub open spec fn fresh_puts(parent: model::Files, idx: model::IndexView) -> Set<Seq<char>> {
    idx.put.dom().filter(
        |p: Seq<char>| !(parent.contains_key(p) && parent[p] == idx.put[p].hash),
    )
}

/// The deletions of files that the parent has.
pub open spec fn real_dels(parent: model::Files, idx: model::IndexView) -> Set<Seq<char>> {
    idx.del.filter(|p: Seq<char>| parent.contains_key(p))
}

/// A change that puts each of `paths`.
pub open spec fn puts(paths: Seq<Seq<char>>, put: Map<Seq<char>, model::IndexEntryView>) -> Seq<model::ChangeView> {
    paths.map_values(|p: Seq<char>| model::ChangeView::Put { path: p, hash: put[p].hash })
}

/// A change that deletes each of `paths`.
pub open spec fn dels(paths: Seq<Seq<char>>) -> Seq<model::ChangeView> {
    paths.map_values(|p: Seq<char>| model::ChangeView::Del { path: p })
}

/// The changes that a commit of `idx` makes: the puts in ascending order of their paths, then
/// the deletions likewise. What changes nothing is left out.
pub open spec fn layer_changes(parent: model::Files, idx: model::IndexView) -> Seq<model::ChangeView> {
    puts(strmap::ascending(fresh_puts(parent, idx)), idx.put) + dels(
        strmap::ascending(real_dels(parent, idx)),
    )
}

/// The layer that a commit of `idx` makes, or `None` where it would change nothing.
pub fn make_layer_from_index(parent: &FileMap, idx: &Index) -> (r: Option<Layer>)
    ensures
        match r {
            Some(layer) => layer@ == layer_changes(parent@, idx@) && layer@.len() > 0,
            None => layer_changes(parent@, idx@).len() == 0,
        },
{
    let mut changes: Vec<LayerChange> = Vec::new();
    let ghost shape = |c: LayerChange| c@;
    let ghost pick = |p: Seq<char>| !(parent@.contains_key(p) && parent@[p] == idx@.put[p].hash);
    let n = idx.put.len();
    let ghost ks = idx.put.keys();
    let mut i: usize = 0;
    assert(changes@.map_values(shape) =~= puts(strmap::picked(ks.take(0), pick), idx@.put));
    while i < n
        invariant
            i <= n == ks.len(),
            ks == idx.put.keys(),
            shape == (|c: LayerChange| c@),
            pick == (|p: Seq<char>| !(parent@.contains_key(p) && parent@[p] == idx@.put[p].hash)),
            changes@.map_values(shape) == puts(strmap::picked(ks.take(i as int), pick), idx@.put),
        decreases n - i,
    {
        let p = idx.put.key(i);
        let e = idx.put.value(i);
        let ghost before = changes@.map_values(shape);
        proof {
            assert(ks.take(i + 1).drop_last() =~= ks.take(i as int));
            assert(ks.take(i + 1).last() == p@);
        }
        let same = match parent.get(p.as_str()) {
            Some(h) => text::str_eq(h.as_str(), e.hash.as_str()),
            None => false,
        };
        assert(pick(p@) == !same);
        if !same {
            changes.push(LayerChange::Put { path: p.clone(), hash: e.hash.clone() });
            proof {
                let c = model::ChangeView::Put { path: p@, hash: e@.hash };
                assert(changes@.map_values(shape) =~= before.push(c));
                assert(puts(strmap::picked(ks.take(i + 1), pick), idx@.put) =~= puts(
                    strmap::picked(ks.take(i as int), pick),
                    idx@.put,
                ).push(c));
            }
        }
        i = i + 1;
    }
    let ghost first = changes@.map_values(shape);
    proof {
        assert(ks.take(i as int) =~= ks);
        strmap::lemma_picked_ascending(ks, idx.put@.dom(), pick);
        assert(first == puts(strmap::ascending(fresh_puts(parent@, idx@)), idx@.put));
    }
    let ghost gone = |p: Seq<char>| parent@.contains_key(p);
    let m = idx.del.len();
    let ghost ds = idx.del.items();
    let mut j: usize = 0;
    assert(changes@.map_values(shape) =~= first + dels(strmap::picked(ds.take(0), gone)));
    while j < m
        invariant
            j <= m == ds.len(),
            ds == idx.del.items(),
            shape == (|c: LayerChange| c@),
            gone == (|p: Seq<char>| parent@.contains_key(p)),
            changes@.map_values(shape) == first + dels(strmap::picked(ds.take(j as int), gone)),
        decreases m - j,
    {
        let p = idx.del.item(j);
        let ghost before = changes@.map_values(shape);
        proof {
            assert(ds.take(j + 1).drop_last() =~= ds.take(j as int));
            assert(ds.take(j + 1).last() == p@);
        }
        if parent.contains_key(p.as_str()) {
            changes.push(LayerChange::Del { path: p.clone() });
            proof {
                let c = model::ChangeView::Del { path: p@ };
                assert(changes@.map_values(shape) =~= before.push(c));
                assert(dels(strmap::picked(ds.take(j + 1), gone)) =~= dels(
                    strmap::picked(ds.take(j as int), gone),
                ).push(c));
                assert(before.push(c) =~= first + dels(strmap::picked(ds.take(j + 1), gone)));
            }
        }
        j = j + 1;
    }
    proof {
        assert(ds.take(j as int) =~= ds);
        strmap::lemma_picked_ascending(ds, idx.del@, gone);
        assert(changes@.map_values(shape) == layer_changes(parent@, idx@));
    }
    if changes.len() == 0 {
        assert(layer_changes(parent@, idx@).len() == 0);
        return None;
    }
    let layer = Layer { changes };
    assert(layer@ =~= layer_changes(parent@, idx@));
    Some(layer)
}

// ---------------------------------------------------------------------------------------
// Differences
// ---------------------------------------------------------------------------------------
/// The paths that `b` has and `a` has not.
pub open spec fn added_paths(a: model::Files, b: model::Files) -> Set<Seq<char>> {
    b.dom().filter(|p: Seq<char>| !a.contains_key(p))
}

/// The paths that both have, with different hashes.
pub open spec fn modified_paths(a: model::Files, b: model::Files) -> Set<Seq<char>> {
    a.dom().filter(|p: Seq<char>| b.contains_key(p) && a[p] != b[p])
}

/// The difference between two sets of files, each list of paths in ascending order.
#[derive(Debug, PartialEq, Eq)]
pub struct Diff {
    pub added: Vec<String>,
    pub modified: Vec<String>,
    pub deleted: Vec<String>,
}

/// The keys of `m` that `other` lacks, in ascending order.
fn missing_from(m: &FileMap, other: &FileMap) -> (r: Vec<String>)
    ensures
        text::texts(r@) == strmap::ascending(added_paths(other@, m@)),
{
    let ghost pick = |p: Seq<char>| !other@.contains_key(p);
    let n = m.len();
    let ghost ks = m.keys();
    let mut out: Vec<String> = Vec::new();
    let mut i: usize = 0;
    assert(text::texts(out@) =~= strmap::picked(ks.take(0), pick));
    while i < n
        invariant
            i <= n == ks.len(),
            ks == m.keys(),
            pick == (|p: Seq<char>| !other@.contains_key(p)),
            text::texts(out@) == strmap::picked(ks.take(i as int), pick),
        decreases n - i,
    {
        let p = m.key(i);
        let ghost before = text::texts(out@);
        proof {
            assert(ks.take(i + 1).drop_last() =~= ks.take(i as int));
            assert(ks.take(i + 1).last() == p@);
        }
        if !other.contains_key(p.as_str()) {
            out.push(p.clone());
            assert(text::texts(out@) =~= before.push(p@));
        }
        i = i + 1;
    }
    proof {
        assert(ks.take(i as int) =~= ks);
        strmap::lemma_picked_ascending(ks, m@.dom(), pick);
    }
    out
}

/// The difference from `a` to `b`: the paths that were added, modified and deleted.
pub fn diff_maps(a: &FileMap, b: &FileMap) -> (r: Diff)
    ensures
        text::texts(r.added@) == strmap::ascending(added_paths(a@, b@)),
        text::texts(r.modified@) == strmap::ascending(modified_paths(a@, b@)),
        text::texts(r.deleted@) == strmap::ascending(added_paths(b@, a@)),
{
    let ghost pick = |p: Seq<char>| b@.contains_key(p) && a@[p] != b@[p];
    let n = a.len();
    let ghost ks = a.keys();
    let mut modified: Vec<String> = Vec::new();
    let mut i: usize = 0;
    assert(text::texts(modified@) =~= strmap::picked(ks.take(0), pick));
    while i < n
        invariant
            i <= n == ks.len(),
            ks == a.keys(),
            pick == (|p: Seq<char>| b@.contains_key(p) && a@[p] != b@[p]),
            text::texts(modified@) == strmap::picked(ks.take(i as int), pick),
        decreases n - i,
    {
        let p = a.key(i);
        let ghost before = text::texts(modified@);
        proof {
            assert(ks.take(i + 1).drop_last() =~= ks.take(i as int));
            assert(ks.take(i + 1).last() == p@);
        }
        let differs = match b.get(p.as_str()) {
            Some(h) => !text::str_eq(h.as_str(), a.value(i).as_str()),
            None => false,
        };
        if differs {
            modified.push(p.clone());
            assert(text::texts(modified@) =~= before.push(p@));
        }
        i = i + 1;
    }
    proof {
        assert(ks.take(i as int) =~= ks);
        strmap::lemma_picked_ascending(ks, a@.dom(), pick);
    }
    Diff { added: missing_from(b, a), modified, deleted: missing_from(a, b) }
}

// ---------------------------------------------------------------------------------------
// Patches
// ---------------------------------------------------------------------------------------
/// The files that a patch from `from` to `to` puts.
pub open spec fn patch_put(from: model::Files, to: model::Files) -> model::Files {
    to.restrict(
        to.dom().filter(|p: Seq<char>| !(from.contains_key(p) && from[p] == to[p])),
    )
}

/// The paths that a patch from `from` to `to` deletes.
pub open spec fn patch_del(from: model::Files, to: model::Files) -> Set<Seq<char>> {
    from.dom().filter(|p: Seq<char>| !to.contains_key(p))
}

/// The files of `base` after a patch.
pub open spec fn patched(base: model::Files, put: model::Files, del: Set<Seq<char>>) -> model::Files {
    base.remove_keys(del).union_prefer_right(put)
}

/// What has to be put and deleted to get from `from` to `to`.
pub fn make_patch(from: &FileMap, to: &FileMap) -> (r: (FileMap, StrSet))
    ensures
        r.0@ == patch_put(from@, to@),
        r.1@ == patch_del(from@, to@),
{
    let mut put: FileMap = StrMap::new();
    let mut del = StrSet::new();
    let n = from.len();
    let ghost fs = from.keys();
    let mut i: usize = 0;
    while i < n
        invariant
            i <= n == fs.len(),
            fs == from.keys(),
            forall|p: Seq<char>|
                #[trigger] del@.contains(p) <==> fs.take(i as int).contains(p) && !to@.contains_key(p),
        decreases n - i,
    {
        let p = from.key(i);
        let ghost seen = fs.take(i as int);
        let ghost before = del@;
        if !to.contains_key(p.as_str()) {
            del.insert(p.clone());
        }
        proof {
            assert(fs.take(i + 1) =~= seen.push(p@));
            assert forall|q: Seq<char>|
                #[trigger] del@.contains(q) <==> fs.take(i + 1).contains(q) && !to@.contains_key(q) by {
                strmap::lemma_push_contains(seen, p@, q);
                assert(before.contains(q) <==> seen.contains(q) && !to@.contains_key(q));
            }
        }
        i = i + 1;
    }
    let m = to.len();
    let ghost ts = to.keys();
    let mut j: usize = 0;
    while j < m
        invariant
            j <= m == ts.len(),
            ts == to.keys(),
            strmap::lists(ts, to@.dom()),
            forall|p: Seq<char>|
                #[trigger] put@.contains_key(p) <==> ts.take(j as int).contains(p) && !(from@.contains_key(p)
                    && from@[p] == to@[p]),
            forall|p: Seq<char>| #[trigger] put@.contains_key(p) ==> put@[p] == to@[p],
        decreases m - j,
    {
        let p = to.key(j);
        let h = to.value(j);
        let ghost seen = ts.take(j as int);
        let ghost before = put@;
        let same = match from.get(p.as_str()) {
            Some(x) => text::str_eq(x.as_str(), h.as_str()),
            None => false,
        };
        if !same {
            put.insert(p.clone(), h.clone());
        }
        proof {
            assert(ts.take(j + 1) =~= seen.push(p@));
            assert forall|q: Seq<char>|
                #[trigger] put@.contains_key(q) <==> ts.take(j + 1).contains(q) && !(from@.contains_key(q)
                    && from@[q] == to@[q]) by {
                strmap::lemma_push_contains(seen, p@, q);
                assert(before.contains_key(q) <==> seen.contains(q) && !(from@.contains_key(q) && from@[q] == to@[q]));
            }
        }
        j = j + 1;
    }
    proof {
        assert(fs.take(i as int) =~= fs);
        assert(ts.take(j as int) =~= ts);
        assert forall|p: Seq<char>| #[trigger] put@.contains_key(p) <==> patch_put(from@, to@).contains_key(p) by {
            assert(to@.dom().contains(p) <==> ts.contains(p));
        }
        assert(put@.dom() =~= patch_put(from@, to@).dom());
        assert(put@ =~= patch_put(from@, to@));
        assert forall|p: Seq<char>| #[trigger] del@.contains(p) <==> patch_del(from@, to@).contains(p) by {
            assert(from@.dom().contains(p) <==> fs.contains(p));
        }
        assert(del@ =~= patch_del(from@, to@));
    }
    (put, del)
}

/// The files of `base` after a patch: the deletions first, then the puts.
pub fn apply_patch(base: &FileMap, put: &FileMap, del: &StrSet) -> (r: FileMap)
    ensures
        r@ == patched(base@, put@, del@),
{
    let mut out = copy_files(base);
    let m = del.len();
    let ghost ds = del.items();
    let mut j: usize = 0;
    while j < m
        invariant
            j <= m == ds.len(),
            ds == del.items(),
            forall|p: Seq<char>|
                #[trigger] out@.contains_key(p) <==> base@.contains_key(p) && !ds.take(j as int).contains(p),
            forall|p: Seq<char>| #[trigger] out@.contains_key(p) ==> out@[p] == base@[p],
        decreases m - j,
    {
        let ghost before = out@;
        let ghost seen = ds.take(j as int);
        out.remove(del.item(j).as_str());
        proof {
            assert(ds.take(j + 1) =~= seen.push(ds[j as int]));
            assert forall|p: Seq<char>|
                #[trigger] out@.contains_key(p) <==> base@.contains_key(p) && !ds.take(j + 1).contains(p) by {
                strmap::lemma_push_contains(seen, ds[j as int], p);
                assert(before.contains_key(p) <==> base@.contains_key(p) && !seen.contains(p));
            }
        }
        j = j + 1;
    }
    let ghost mid = out@;
    proof {
        assert(ds.take(j as int) =~= ds);
        assert forall|p: Seq<char>| #[trigger] mid.contains_key(p) <==> base@.remove_keys(del@).contains_key(p) by {
            assert(del@.contains(p) <==> ds.contains(p));
        }
        assert(mid.dom() =~= base@.remove_keys(del@).dom());
        assert(mid =~= base@.remove_keys(del@));
    }
    let n = put.len();
    let ghost ks = put.keys();
    let mut i: usize = 0;
    while i < n
        invariant
            i <= n == ks.len(),
            ks == put.keys(),
            forall|p: Seq<char>|
                #[trigger] out@.contains_key(p) <==> mid.contains_key(p) || ks.take(i as int).contains(p),
            forall|p: Seq<char>|
                #[trigger] out@.contains_key(p) ==> out@[p] == (if ks.take(i as int).contains(p) {
                    put@[p]
                } else {
                    mid[p]
                }),
        decreases n - i,
    {
        let ghost before = out@;
        let ghost seen = ks.take(i as int);
        out.insert(put.key(i).clone(), put.value(i).clone());
        proof {
            assert(ks.take(i + 1) =~= seen.push(ks[i as int]));
            assert forall|p: Seq<char>|
                (#[trigger] out@.contains_key(p) <==> mid.contains_key(p) || ks.take(i + 1).contains(p)) && (
                out@.contains_key(p) ==> out@[p] == (if ks.take(i + 1).contains(p) {
                    put@[p]
                } else {
                    mid[p]
                })) by {
                strmap::lemma_push_contains(seen, ks[i as int], p);
                assert(before.contains_key(p) <==> mid.contains_key(p) || seen.contains(p));
            }
        }
        i = i + 1;
    }
    proof {
        assert(ks.take(i as int) =~= ks);
        let want = patched(base@, put@, del@);
        assert forall|p: Seq<char>|
            (#[trigger] out@.contains_key(p) <==> want.contains_key(p)) && (out@.contains_key(p) ==> out@[p]
                == want[p]) by {
            assert(put@.dom().contains(p) <==> ks.contains(p));
        }
        assert(out@.dom() =~= want.dom());
        assert(out@ =~= want);
    }
    out
}

/// The files of `onto` with the change that leads from `old_parent` to `old`.
pub open spec fn replayed(onto: model::Files, old_parent: model::Files, old: model::Files) -> model::Files {
    patched(onto, patch_put(old_parent, old), patch_del(old_parent, old))
}

/// The files of `onto` with the change that leads from `old_parent` to `old`: what a
/// cherry-pick or one step of a rebase makes.
pub fn replay(onto: &FileMap, old_parent: &FileMap, old: &FileMap) -> (r: FileMap)
    ensures
        r@ == replayed(onto@, old_parent@, old@),
{
    let (put, del) = make_patch(old_parent, old);
    apply_patch(onto, &put, &del)
}

/// The files of `onto` with one change after the other; each change leads from the first to the
/// second of a pair.
pub open spec fn all_replayed(onto: model::Files, steps: Seq<(model::Files, model::Files)>) -> model::Files
    decreases steps.len(),
{
    if steps.len() == 0 {
        onto
    } else {
        replayed(all_replayed(onto, steps.drop_last()), steps.last().0, steps.last().1)
    }
}

// ---------------------------------------------------------------------------------------
// Laws
// ---------------------------------------------------------------------------------------
/// A patch leads from the files that it was made from to those that it was made for.
pub proof fn law_patch_round_trip(from: model::Files, to: model::Files)
    ensures
        patched(from, patch_put(from, to), patch_del(from, to)) == to,
{
    let r = patched(from, patch_put(from, to), patch_del(from, to));
    assert(r.dom() =~= to.dom());
    assert(r =~= to);
}

/// A rebase onto the files that it starts from changes no files: replaying each step where it
/// was made leads to where the steps led.
pub proof fn law_rebase_in_place(start: model::Files, steps: Seq<(model::Files, model::Files)>)
    requires
        steps.len() > 0,
        steps[0].0 == start,
        forall|i: int| 0 <= i < steps.len() - 1 ==> (#[trigger] steps[i]).1 == steps[i + 1].0,
    ensures
        all_replayed(start, steps) == steps.last().1,
    decreases steps.len(),
{
    let front = steps.drop_last();
    law_patch_round_trip(steps.last().0, steps.last().1);
    if front.len() > 0 {
        assert(front[0] == steps[0]);
        assert forall|i: int| 0 <= i < front.len() - 1 implies (#[trigger] front[i]).1 == front[i + 1].0 by {
            assert(steps[i].1 == steps[i + 1].0);
        }
        law_rebase_in_place(start, front);
        assert(steps[front.len() - 1].1 == steps[front.len() as int].0);
    } else {
        assert(all_replayed(start, front) == start);
    }
}

/// A patch between the same files changes nothing, whatever it is applied to.
pub proof fn law_patch_of_nothing(a: model::Files, base: model::Files)
    ensures
        patched(base, patch_put(a, a), patch_del(a, a)) == base,
{
    let r = patched(base, patch_put(a, a), patch_del(a, a));
    assert(r.dom() =~= base.dom());
    assert(r =~= base);
}

/// A patch leaves every path alone that is the same in the files that it was made from.
pub proof fn law_patch_leaves_the_rest(from: model::Files, to: model::Files, base: model::Files, p: Seq<char>)
    requires
        from.contains_key(p) <==> to.contains_key(p),
        from.contains_key(p) ==> from[p] == to[p],
    ensures
        ({
            let r = patched(base, patch_put(from, to), patch_del(from, to));
            (r.contains_key(p) <==> base.contains_key(p)) && (r.contains_key(p) ==> r[p] == base[p])
        }),
{
}

/// Two sets of files are the same where no path was added, modified or deleted.
pub proof fn law_diff_is_complete(a: model::Files, b: model::Files)
    ensures
        a == b <==> added_paths(a, b) == Set::<Seq<char>>::empty() && modified_paths(a, b) == Set::<
            Seq<char>,
        >::empty() && added_paths(b, a) == Set::<Seq<char>>::empty(),
{
    if a == b {
        assert(added_paths(a, b) =~= Set::empty());
        assert(modified_paths(a, b) =~= Set::empty());
        assert(added_paths(b, a) =~= Set::empty());
    }
    if added_paths(a, b) == Set::<Seq<char>>::empty() && modified_paths(a, b) == Set::<Seq<char>>::empty()
        && added_paths(b, a) == Set::<Seq<char>>::empty() {
        assert forall|p: Seq<char>|
            (#[trigger] a.contains_key(p) <==> b.contains_key(p)) && (a.contains_key(p) ==> a[p] == b[p]) by {
            assert(!added_paths(a, b).contains(p));
            assert(!modified_paths(a, b).contains(p));
            assert(!added_paths(b, a).contains(p));
        }
        assert(a.dom() =~= b.dom());
        assert(a =~= b);
    }
}

/// No path is in two of the lists of a difference.
pub proof fn law_diff_is_disjoint(a: model::Files, b: model::Files)
    ensures
        added_paths(a, b).disjoint(modified_paths(a, b)),
        added_paths(a, b).disjoint(added_paths(b, a)),
        modified_paths(a, b).disjoint(added_paths(b, a)),
{
}

/// The difference the other way round has the same modified paths.
pub proof fn law_diff_reverses(a: model::Files, b: model::Files)
    ensures
        modified_paths(a, b) == modified_paths(b, a),
{
    assert(modified_paths(a, b) =~= modified_paths(b, a));
}

/// With nothing staged the files stay as they are.
pub proof fn law_nothing_staged(parent: model::Files)
    ensures
        staged(parent, model::IndexView::blank()) == parent,
{
    assert(staged(parent, model::IndexView::blank()) =~= parent);
}

proof fn lemma_puts_applied(m: model::Files, paths: Seq<Seq<char>>, put: Map<Seq<char>, model::IndexEntryView>)
    ensures
        forall|p: Seq<char>|
            #[trigger] all_changed(m, puts(paths, put)).contains_key(p) <==> m.contains_key(p) || paths.contains(p),
        forall|p: Seq<char>|
            #[trigger] all_changed(m, puts(paths, put)).contains_key(p) ==> all_changed(m, puts(paths, put))[p]
                == (if paths.contains(p) {
                put[p].hash
            } else {
                m[p]
            }),
    decreases paths.len(),
{
    if paths.len() > 0 {
        let f = paths.drop_last();
        let cs = puts(paths, put);
        lemma_puts_applied(m, f, put);
        assert(cs.drop_last() =~= puts(f, put));
        assert(paths =~= f.push(paths.last()));
        assert forall|p: Seq<char>|
            (#[trigger] all_changed(m, cs).contains_key(p) <==> m.contains_key(p) || paths.contains(p)) && (all_changed(
                m,
                cs,
            ).contains_key(p) ==> all_changed(m, cs)[p] == (if paths.contains(p) {
                put[p].hash
            } else {
                m[p]
            })) by {
            strmap::lemma_push_contains(f, paths.last(), p);
            let x = all_changed(m, puts(f, put));
            assert(x.contains_key(p) <==> m.contains_key(p) || f.contains(p));
        }
    }
}

proof fn lemma_dels_applied(m: model::Files, paths: Seq<Seq<char>>)
    ensures
        forall|p: Seq<char>|
            #[trigger] all_changed(m, dels(paths)).contains_key(p) <==> m.contains_key(p) && !paths.contains(p),
        forall|p: Seq<char>|
            #[trigger] all_changed(m, dels(paths)).contains_key(p) ==> all_changed(m, dels(paths))[p] == m[p],
    decreases paths.len(),
{
    if paths.len() > 0 {
        let f = paths.drop_last();
        let cs = dels(paths);
        lemma_dels_applied(m, f);
        assert(cs.drop_last() =~= dels(f));
        assert(paths =~= f.push(paths.last()));
        assert forall|p: Seq<char>|
            (#[trigger] all_changed(m, cs).contains_key(p) <==> m.contains_key(p) && !paths.contains(p)) && (all_changed(
                m,
                cs,
            ).contains_key(p) ==> all_changed(m, cs)[p] == m[p]) by {
            strmap::lemma_push_contains(f, paths.last(), p);
            let x = all_changed(m, dels(f));
            assert(x.contains_key(p) <==> m.contains_key(p) && !f.contains(p));
        }
    }
}

/// Changes one after the other are the changes of both.
pub proof fn lemma_changes_append(m: model::Files, a: Seq<model::ChangeView>, b: Seq<model::ChangeView>)
    ensures
        all_changed(m, a + b) == all_changed(all_changed(m, a), b),
    decreases b.len(),
{
    if b.len() == 0 {
        assert(a + b =~= a);
    } else {
        lemma_changes_append(m, a, b.drop_last());
        assert((a + b).drop_last() =~= a + b.drop_last());
    }
}

/// The layer of a commit leads from the files of its parent to those that were staged. This
/// needs that what is staged both to be put and to be deleted is there to be deleted.
pub proof fn law_layer_makes_the_staged_files(parent: model::Files, idx: model::IndexView)
    requires
        idx.put.dom().finite(),
        idx.del.finite(),
        forall|p: Seq<char>|
            #[trigger] idx.put.contains_key(p) && idx.del.contains(p) ==> parent.contains_key(p),
    ensures
        all_changed(parent, layer_changes(parent, idx)) == staged(parent, idx),
{
    let fp = fresh_puts(parent, idx);
    let rd = real_dels(parent, idx);
    let ps = strmap::lemma_listed(fp);
    let ds = strmap::lemma_listed(rd);
    let mid = all_changed(parent, puts(ps, idx.put));
    lemma_changes_append(parent, puts(ps, idx.put), dels(ds));
    lemma_puts_applied(parent, ps, idx.put);
    lemma_dels_applied(mid, ds);
    let r = all_changed(mid, dels(ds));
    let want = staged(parent, idx);
    assert forall|p: Seq<char>|
        (#[trigger] r.contains_key(p) <==> want.contains_key(p)) && (r.contains_key(p) ==> r[p] == want[p]) by {
        assert(fp.contains(p) <==> ps.contains(p));
        assert(rd.contains(p) <==> ds.contains(p));
        assert(mid.contains_key(p) <==> parent.contains_key(p) || ps.contains(p));
        assert(r.contains_key(p) <==> mid.contains_key(p) && !ds.contains(p));
    }
    assert(r.dom() =~= want.dom());
    assert(r =~= want);
}

/// A replay carries the change over whatever it meets: a path that the change gave a hash has
/// that hash after it, a path that the change dropped is gone, and any other path is as it was.
pub proof fn law_replay_carries_the_change(onto: model::Files, old_parent: model::Files, old: model::Files, p: Seq<char>)
    ensures
        old.contains_key(p) && !(old_parent.contains_key(p) && old_parent[p] == old[p]) ==> replayed(
            onto,
            old_parent,
            old,
        ).contains_pair(p, old[p]),
        old_parent.contains_key(p) && !old.contains_key(p) ==> !replayed(onto, old_parent, old).contains_key(p),
        old_parent.contains_key(p) && old.contains_key(p) && old_parent[p] == old[p] ==> (replayed(
            onto,
            old_parent,
            old,
        ).contains_key(p) <==> onto.contains_key(p)),
        !old_parent.contains_key(p) && !old.contains_key(p) ==> (replayed(onto, old_parent, old).contains_key(p)
            <==> onto.contains_key(p)),
        (old_parent.contains_key(p) <==> old.contains_key(p)) && (old.contains_key(p) ==> old_parent[p] == old[p])
            && onto.contains_key(p) ==> replayed(onto, old_parent, old)[p] == onto[p],
{
}

/// Replays are made one after the other: each on the files that the one before has left.
pub proof fn law_replays_follow_each_other(
    onto: model::Files,
    a: Seq<(model::Files, model::Files)>,
    b: Seq<(model::Files, model::Files)>,
    one: (model::Files, model::Files),
)
    ensures
        all_replayed(onto, a + b) == all_replayed(all_replayed(onto, a), b),
        all_replayed(onto, seq![one]) == replayed(onto, one.0, one.1),
        all_replayed(onto, Seq::empty()) == onto,
    decreases b.len(),
{
    if b.len() == 0 {
        assert(a + b =~= a);
    } else {
        law_replays_follow_each_other(onto, a, b.drop_last(), one);
        assert((a + b).drop_last() =~= a + b.drop_last());
    }
    let s = seq![one];
    assert(s.drop_last() =~= Seq::empty());
    assert(all_replayed(onto, s.drop_last()) == onto);
}

/// A patch puts exactly the paths at which the files that it leads to have something new, with
/// their hashes there, and deletes exactly the paths that they lack.
pub proof fn law_patch_is_exact(from: model::Files, to: model::Files, p: Seq<char>)
    ensures
        patch_put(from, to).contains_key(p) <==> to.contains_key(p) && !(from.contains_key(p) && from[p] == to[p]),
        patch_put(from, to).contains_key(p) ==> patch_put(from, to)[p] == to[p],
        patch_del(from, to).contains(p) <==> from.contains_key(p) && !to.contains_key(p),
{
}

/// A patch that is applied puts what it puts, deletes what it deletes and does not put, and
/// leaves the rest.
pub proof fn law_patch_is_applied(base: model::Files, put: model::Files, del: Set<Seq<char>>, p: Seq<char>)
    ensures
        put.contains_key(p) ==> patched(base, put, del).contains_pair(p, put[p]),
        !put.contains_key(p) && del.contains(p) ==> !patched(base, put, del).contains_key(p),
        !put.contains_key(p) && !del.contains(p) ==> (patched(base, put, del).contains_key(p) <==> base.contains_key(p)),
        !put.contains_key(p) && !del.contains(p) && base.contains_key(p) ==> patched(base, put, del)[p] == base[p],
{
}

/// The path that a change is about.
pub open spec fn path_of(c: model::ChangeView) -> Seq<char> {
    match c {
        model::ChangeView::Put { path, .. } => path,
        model::ChangeView::Del { path } => path,
    }
}

/// Of the changes at a path the last one counts, and a path without a change stays as it was.
pub proof fn law_last_change_counts(m: model::Files, cs: Seq<model::ChangeView>, p: Seq<char>)
    ensures
        forall|i: int, h: Seq<char>|
            0 <= i < cs.len() && #[trigger] cs[i] == (model::ChangeView::Put { path: p, hash: h }) && (forall|j: int|
                i < j < cs.len() ==> path_of(#[trigger] cs[j]) != p) ==> #[trigger] all_changed(m, cs).contains_pair(p, h),
        forall|i: int|
            0 <= i < cs.len() && #[trigger] cs[i] == (model::ChangeView::Del { path: p }) && (forall|j: int|
                i < j < cs.len() ==> path_of(#[trigger] cs[j]) != p) ==> !all_changed(m, cs).contains_key(p),
        (forall|j: int| 0 <= j < cs.len() ==> path_of(#[trigger] cs[j]) != p) ==> (all_changed(m, cs).contains_key(p)
            <==> m.contains_key(p)) && (m.contains_key(p) ==> all_changed(m, cs)[p] == m[p]),
    decreases cs.len(),
{
    if cs.len() > 0 {
        let f = cs.drop_last();
        law_last_change_counts(m, f, p);
        let r = all_changed(m, cs);
        assert forall|i: int, h: Seq<char>|
            0 <= i < cs.len() && #[trigger] cs[i] == (model::ChangeView::Put { path: p, hash: h }) && (forall|j: int|
                i < j < cs.len() ==> path_of(#[trigger] cs[j]) != p) implies #[trigger] r.contains_pair(p, h) by {
            if i < f.len() {
                assert(f[i] == cs[i]);
                assert forall|j: int| i < j < f.len() implies path_of(#[trigger] f[j]) != p by {
                    assert(f[j] == cs[j]);
                }
                assert(all_changed(m, f).contains_pair(p, h));
                assert(path_of(cs[cs.len() - 1]) != p);
            }
        }
        assert forall|i: int|
            0 <= i < cs.len() && #[trigger] cs[i] == (model::ChangeView::Del { path: p }) && (forall|j: int|
                i < j < cs.len() ==> path_of(#[trigger] cs[j]) != p) implies !r.contains_key(p) by {
            if i < f.len() {
                assert(f[i] == cs[i]);
                assert forall|j: int| i < j < f.len() implies path_of(#[trigger] f[j]) != p by {
                    assert(f[j] == cs[j]);
                }
                assert(path_of(cs[cs.len() - 1]) != p);
            }
        }
        if forall|j: int| 0 <= j < cs.len() ==> path_of(#[trigger] cs[j]) != p {
            assert forall|j: int| 0 <= j < f.len() implies path_of(#[trigger] f[j]) != p by {
                assert(f[j] == cs[j]);
            }
            assert(path_of(cs[cs.len() - 1]) != p);
        }
    }
}

/// Layers are applied from the first to the last, each whole: applying two rows of layers is
/// applying one after the other, and one layer makes its changes. A row can be applied exactly
/// where each of its layers can be read.
pub proof fn law_layers_are_applied_in_order(
    m: model::Files,
    l: LayersView,
    a: Seq<Seq<char>>,
    b: Seq<Seq<char>>,
    h: Seq<char>,
)
    ensures
        layered(m, l, Seq::empty()) == Some(m),
        l.contains_key(h) ==> layered(m, l, seq![h]) == Some(all_changed(m, l[h])),
        layered(m, l, a) is Some ==> layered(m, l, a + b) == layered(layered(m, l, a)->0, l, b),
        layered(m, l, a) is None ==> layered(m, l, a + b) is None,
        layered(m, l, b) is Some <==> forall|x: Seq<char>| #[trigger] b.contains(x) ==> l.contains_key(x),
    decreases b.len(),
{
    let s = seq![h];
    assert(s.drop_last() =~= Seq::empty());
    assert(layered(m, l, s.drop_last()) == Some(m));
    if b.len() == 0 {
        assert(a + b =~= a);
    } else {
        let f = b.drop_last();
        law_layers_are_applied_in_order(m, l, a, f, h);
        assert((a + b).drop_last() =~= a + f);
        assert(b =~= f.push(b.last()));
        if layered(m, l, b) is Some {
            assert forall|x: Seq<char>| #[trigger] b.contains(x) implies l.contains_key(x) by {
                strmap::lemma_push_contains(f, b.last(), x);
            }
        }
        if forall|x: Seq<char>| #[trigger] b.contains(x) ==> l.contains_key(x) {
            assert(b.contains(b.last()));
            assert forall|x: Seq<char>| #[trigger] f.contains(x) implies l.contains_key(x) by {
                strmap::lemma_push_contains(f, b.last(), x);
                assert(b.contains(x));
            }
        }
    }
}

/// The files of a commit are those of its base tree where it has no layer, and a further layer
/// makes its changes on top of all others.
pub proof fn law_commit_is_base_and_layers(
    c: model::CommitView,
    t: walk::TreesView,
    l: LayersView,
    hs: Seq<Seq<char>>,
    h: Seq<char>,
)
    requires
        walk::flat(t, c.base_root) is Ok,
    ensures
        effective((model::CommitView { layers: Seq::empty(), ..c }), t, l) == Ok::<model::Files, CommitError>(
            walk::flat(t, c.base_root)->Ok_0,
        ),
        effective((model::CommitView { layers: hs, ..c }), t, l) is Ok && l.contains_key(h) ==> effective(
            (model::CommitView { layers: hs.push(h), ..c }),
            t,
            l,
        ) == Ok::<model::Files, CommitError>(
            all_changed(effective((model::CommitView { layers: hs, ..c }), t, l)->Ok_0, l[h]),
        ),
        !l.contains_key(h) ==> effective((model::CommitView { layers: hs.push(h), ..c }), t, l) is Err,
{
    assert(hs.push(h).drop_last() =~= hs);
}

/// A commit without a readable base tree has no files to tell.
pub proof fn law_commit_needs_its_base(c: model::CommitView, t: walk::TreesView, l: LayersView)
    ensures
        walk::flat(t, c.base_root) is Err ==> effective(c, t, l) == Err::<model::Files, CommitError>(
            CommitError::Base(walk::flat(t, c.base_root)->Err_0),
        ),
{
}

/// What is staged counts before what the parent has: a path that is to be deleted is gone, a path
/// that is to be put has its staged hash, and any other path is as in the parent.
pub proof fn law_staged_at_each_path(parent: model::Files, idx: model::IndexView, p: Seq<char>)
    ensures
        idx.del.contains(p) ==> !staged(parent, idx).contains_key(p),
        !idx.del.contains(p) && idx.put.contains_key(p) ==> staged(parent, idx).contains_pair(p, idx.put[p].hash),
        !idx.del.contains(p) && !idx.put.contains_key(p) ==> (staged(parent, idx).contains_key(p)
            <==> parent.contains_key(p)),
        !idx.del.contains(p) && !idx.put.contains_key(p) && parent.contains_key(p) ==> staged(parent, idx)[p]
            == parent[p],
{
}

/// A layer says what changes and nothing else: it puts a path exactly where what is staged there
/// is not what the parent has, and deletes a path exactly where the parent has it.
pub proof fn law_layer_says_each_change(parent: model::Files, idx: model::IndexView, p: Seq<char>, h: Seq<char>)
    requires
        idx.put.dom().finite(),
        idx.del.finite(),
    ensures
        layer_changes(parent, idx).contains(model::ChangeView::Put { path: p, hash: h }) <==> idx.put.contains_key(p)
            && idx.put[p].hash == h && !parent.contains_pair(p, h),
        layer_changes(parent, idx).contains(model::ChangeView::Del { path: p }) <==> idx.del.contains(p)
            && parent.contains_key(p),
        layer_changes(parent, idx).no_duplicates(),
{
    let fp = fresh_puts(parent, idx);
    let rd = real_dels(parent, idx);
    let ps = strmap::lemma_listed(fp);
    let ds = strmap::lemma_listed(rd);
    let a = puts(ps, idx.put);
    let b = dels(ds);
    let all = layer_changes(parent, idx);
    let x = model::ChangeView::Put { path: p, hash: h };
    let y = model::ChangeView::Del { path: p };
    assert(fp.contains(p) <==> ps.contains(p));
    assert(rd.contains(p) <==> ds.contains(p));
    if all.contains(x) {
        let i = choose|i: int| 0 <= i < all.len() && all[i] == x;
        assert(i < a.len());
        assert(ps[i] == p);
        assert(ps.contains(p));
    }
    if fp.contains(p) && idx.put[p].hash == h {
        let i = choose|i: int| 0 <= i < ps.len() && ps[i] == p;
        assert(all[i] == x);
    }
    if all.contains(y) {
        let i = choose|i: int| 0 <= i < all.len() && all[i] == y;
        assert(i >= a.len());
        assert(ds[i - a.len()] == p);
        assert(ds.contains(p));
    }
    if rd.contains(p) {
        let i = choose|i: int| 0 <= i < ds.len() && ds[i] == p;
        assert(all[i + a.len()] == y);
    }
    assert forall|i: int, j: int| 0 <= i < all.len() && 0 <= j < all.len() && i != j implies all[i] != all[j] by {
        if i < a.len() && j < a.len() {
            if ps[i] == ps[j] {
                strmap::lemma_lists_distinct(ps, fp, i, j);
            }
        } else if i >= a.len() && j >= a.len() {
            if ds[i - a.len()] == ds[j - a.len()] {
                strmap::lemma_lists_distinct(ds, rd, i - a.len(), j - a.len());
            }
        }
    }
}

/// Every path is told in the difference by what both ends have there.
pub proof fn law_diff_tells_each_path(a: model::Files, b: model::Files, p: Seq<char>)
    ensures
        added_paths(a, b).contains(p) <==> b.contains_key(p) && !a.contains_key(p),
        modified_paths(a, b).contains(p) <==> a.contains_key(p) && b.contains_key(p) && a[p] != b[p],
{
}

} // verus!

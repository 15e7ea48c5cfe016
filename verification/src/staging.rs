//! What is staged, what the working tree holds, and how one is made to follow the other.

use vstd::prelude::*;
use vstd::string::*;

use crate::changes;
use crate::ignore;
use crate::ignore::should_ignore;
use crate::model;
use crate::model::{Config, FileMap, Index, IndexEntry, StatCache};
use crate::paths;
use crate::strmap;
use crate::strmap::{StrMap, StrSet};
use crate::text;

verus! {

// ---------------------------------------------------------------------------------------
// Staging
// ---------------------------------------------------------------------------------------
/// The index once the file at `p` is staged to be put.
pub open spec fn with_put(idx: model::IndexView, p: Seq<char>, e: model::IndexEntryView) -> model::IndexView {
    model::IndexView { put: idx.put.insert(p, e), del: idx.del.remove(p) }
}

/// The index once the file at `p` is staged to be deleted.
pub open spec fn with_del(idx: model::IndexView, p: Seq<char>) -> model::IndexView {
    model::IndexView { put: idx.put.remove(p), del: idx.del.insert(p) }
}

/// The index once all of `ps` are staged to be put, one after the other.
pub open spec fn with_puts(
    idx: model::IndexView,
    ps: Seq<Seq<char>>,
    es: Seq<model::IndexEntryView>,
) -> model::IndexView
    decreases ps.len(),
{
    if ps.len() == 0 || ps.len() != es.len() {
        idx
    } else {
        with_put(with_puts(idx, ps.drop_last(), es.drop_last()), ps.last(), es.last())
    }
}

/// The index once all of `ps` are staged to be deleted, one after the other. Empty paths are
/// left out.
pub open spec fn with_dels(idx: model::IndexView, ps: Seq<Seq<char>>) -> model::IndexView
    decreases ps.len(),
{
    if ps.len() == 0 {
        idx
    } else if ps.last().len() == 0 {
        with_dels(idx, ps.drop_last())
    } else {
        with_del(with_dels(idx, ps.drop_last()), ps.last())
    }
}

/// What a list of index entries says.
pub open spec fn entry_views(v: Seq<IndexEntry>) -> Seq<model::IndexEntryView> {
    v.map_values(|e: IndexEntry| e@)
}

/// Stages the files at `paths` to be put, with the entries beside them.
pub fn stage_files(idx: &mut Index, paths: &Vec<String>, entries: &Vec<IndexEntry>)
    requires
        paths@.len() == entries@.len(),
    ensures
        final(idx)@ == with_puts(old(idx)@, text::texts(paths@), entry_views(entries@)),
{
    let ghost start = idx@;
    let ghost ps = text::texts(paths@);
    let ghost es = entry_views(entries@);
    let mut i: usize = 0;
    assert(ps.take(0) =~= Seq::empty());
    while i < paths.len()
        invariant
            i <= paths@.len() == entries@.len(),
            ps == text::texts(paths@),
            es == entry_views(entries@),
            idx@ == with_puts(start, ps.take(i as int), es.take(i as int)),
        decreases paths@.len() - i,
    {
        proof {
            assert(ps.take(i + 1).drop_last() =~= ps.take(i as int));
            assert(es.take(i + 1).drop_last() =~= es.take(i as int));
        }
        idx.del.remove(paths[i].as_str());
        idx.put.insert(paths[i].clone(), entries[i].copy());
        i = i + 1;
    }
    proof {
        assert(ps.take(i as int) =~= ps);
        assert(es.take(i as int) =~= es);
    }
}

/// Stages the files at `paths` to be deleted. Empty paths are left out.
pub fn stage_removals(idx: &mut Index, paths: &Vec<String>)
    ensures
        final(idx)@ == with_dels(old(idx)@, text::texts(paths@)),
{
    let ghost start = idx@;
    let ghost ps = text::texts(paths@);
    let mut i: usize = 0;
    assert(ps.take(0) =~= Seq::empty());
    while i < paths.len()
        invariant
            i <= paths@.len(),
            ps == text::texts(paths@),
            idx@ == with_dels(start, ps.take(i as int)),
        decreases paths@.len() - i,
    {
        proof {
            assert(ps.take(i + 1).drop_last() =~= ps.take(i as int));
            assert(ps.take(i + 1).last() == paths@[i as int]@);
        }
        if !paths[i].as_str().is_empty() {
            idx.put.remove(paths[i].as_str());
            idx.del.insert(paths[i].clone());
        }
        i = i + 1;
    }
    assert(ps.take(i as int) =~= ps);
}

/// The index that puts every one of `files`, each with the time and size beside it.
pub open spec fn index_of(files: model::Files, stats: Seq<(u64, u64)>) -> model::IndexView {
    model::IndexView {
        put: Map::new(
            |p: Seq<char>| files.contains_key(p),
            |p: Seq<char>|
                model::IndexEntryView {
                    hash: files[p],
                    mtime: stats[strmap::ascending(files.dom()).index_of(p)].0,
                    size: stats[strmap::ascending(files.dom()).index_of(p)].1,
                },
        ),
        del: Set::empty(),
    }
}

/// The index that puts every one of `files`. `stats` holds the time and size of each, in
/// ascending order of the paths.
pub fn index_all(files: &FileMap, stats: &Vec<(u64, u64)>) -> (r: Index)
    requires
        stats@.len() == files@.dom().len(),
    ensures
        r@ == index_of(files@, stats@),
{
    let mut put: StrMap<IndexEntry> = StrMap::new();
    let n = files.len();
    let ghost ks = files.keys();
    let ghost want = index_of(files@, stats@);
    let mut i: usize = 0;
    proof {
        strmap::lemma_lists_len(ks, files@.dom());
    }
    while i < n
        invariant
            i <= n == ks.len() == stats@.len(),
            ks == files.keys(),
            ks == strmap::ascending(files@.dom()),
            strmap::lists(ks, files@.dom()),
            want == index_of(files@, stats@),
            forall|p: Seq<char>| #[trigger] put@.contains_key(p) <==> ks.take(i as int).contains(p),
            forall|p: Seq<char>| #[trigger] put@.contains_key(p) ==> put@[p] == want.put[p],
        decreases n - i,
    {
        let ghost before = put@;
        let p = files.key(i);
        let (mtime, size) = stats[i];
        put.insert(p.clone(), IndexEntry { hash: files.value(i).clone(), size, mtime });
        proof {
            assert(ks.take(i + 1) =~= ks.take(i as int).push(ks[i as int]));
            assert(ks.contains(p@));
            assert(files@.dom().contains(p@));
            let k = ks.index_of(p@);
            assert(ks[k] == p@);
            strmap::lemma_lists_distinct(ks, files@.dom(), k, i as int);
            assert forall|q: Seq<char>| #[trigger] put@.contains_key(q) <==> ks.take(i + 1).contains(q) by {
                strmap::lemma_push_contains(ks.take(i as int), ks[i as int], q);
                assert(before.contains_key(q) <==> ks.take(i as int).contains(q));
            }
        }
        i = i + 1;
    }
    proof {
        assert(ks.take(i as int) =~= ks);
        assert forall|p: Seq<char>| #[trigger] put@.contains_key(p) <==> want.put.contains_key(p) by {
            assert(files@.dom().contains(p) <==> ks.contains(p));
        }
        assert(put@.dom() =~= want.put.dom());
        assert(put@ =~= want.put);
    }
    Index { put, del: StrSet::new() }
}

// ---------------------------------------------------------------------------------------
// The working tree
// ---------------------------------------------------------------------------------------
/// The record of a file still holds: its time and size are the same, and it has a hash.
pub open spec fn is_fresh(cache: Map<Seq<char>, model::IndexEntryView>, p: Seq<char>, mtime: u64, size: u64) -> bool {
    cache.contains_key(p) && cache[p].mtime == mtime && cache[p].size == size && cache[p].hash.len() > 0
}

/// Whether the record of a file still holds, so that the file need not be read again.
pub fn can_skip(cache: &StatCache, p: &str, mtime: u64, size: u64) -> (r: bool)
    ensures
        r == is_fresh(cache@, p@, mtime, size),
{
    match cache.files.get(p) {
        Some(e) => e.mtime == mtime && e.size == size && !e.hash.as_str().is_empty(),
        None => false,
    }
}

/// The records once those of `ps` are made anew, one after the other.
pub open spec fn with_records(
    cache: Map<Seq<char>, model::IndexEntryView>,
    ps: Seq<Seq<char>>,
    es: Seq<model::IndexEntryView>,
) -> Map<Seq<char>, model::IndexEntryView>
    decreases ps.len(),
{
    if ps.len() == 0 || ps.len() != es.len() {
        cache
    } else {
        with_records(cache, ps.drop_last(), es.drop_last()).insert(ps.last(), es.last())
    }
}

/// Records the files at `paths`, with the entries beside them.
pub fn record_files(cache: &mut StatCache, paths: &Vec<String>, entries: &Vec<IndexEntry>)
    requires
        paths@.len() == entries@.len(),
    ensures
        final(cache)@ == with_records(old(cache)@, text::texts(paths@), entry_views(entries@)),
{
    let ghost start = cache@;
    let ghost ps = text::texts(paths@);
    let ghost es = entry_views(entries@);
    let mut i: usize = 0;
    assert(ps.take(0) =~= Seq::empty());
    while i < paths.len()
        invariant
            i <= paths@.len() == entries@.len(),
            ps == text::texts(paths@),
            es == entry_views(entries@),
            cache@ == with_records(start, ps.take(i as int), es.take(i as int)),
        decreases paths@.len() - i,
    {
        proof {
            assert(ps.take(i + 1).drop_last() =~= ps.take(i as int));
            assert(es.take(i + 1).drop_last() =~= es.take(i as int));
        }
        cache.files.insert(paths[i].clone(), entries[i].copy());
        i = i + 1;
    }
    proof {
        assert(ps.take(i as int) =~= ps);
        assert(es.take(i as int) =~= es);
    }
}

/// The path is ignored.
pub open spec fn left_alone(p: Seq<char>, cfg: model::ConfigView) -> bool {
    ignore::ignored(p, cfg, ignore::said_by(cfg.sparse, p))
}

/// The recorded files that are not ignored.
pub open spec fn visible(cache: Map<Seq<char>, model::IndexEntryView>, cfg: model::ConfigView) -> model::Files {
    Map::new(
        |p: Seq<char>| cache.contains_key(p) && !left_alone(p, cfg),
        |p: Seq<char>| cache[p].hash,
    )
}

/// The recorded files that are not ignored: what the working tree is taken to hold.
pub fn visible_files(cache: &StatCache, cfg: &Config) -> (r: FileMap)
    ensures
        r@ == visible(cache@, cfg@),
{
    let mut out: FileMap = StrMap::new();
    let n = cache.files.len();
    let ghost ks = cache.files.keys();
    let mut i: usize = 0;
    while i < n
        invariant
            i <= n == ks.len(),
            ks == cache.files.keys(),
            strmap::lists(ks, cache@.dom()),
            forall|p: Seq<char>|
                #[trigger] out@.contains_key(p) <==> ks.take(i as int).contains(p) && !left_alone(p, cfg@),
            forall|p: Seq<char>| #[trigger] out@.contains_key(p) ==> out@[p] == cache@[p].hash,
        decreases n - i,
    {
        let ghost before = out@;
        let ghost seen = ks.take(i as int);
        let p = cache.files.key(i);
        if !should_ignore(p.as_str(), cfg) {
            out.insert(p.clone(), cache.files.value(i).hash.clone());
        }
        proof {
            assert(ks.take(i + 1) =~= seen.push(ks[i as int]));
            assert forall|q: Seq<char>|
                #[trigger] out@.contains_key(q) <==> ks.take(i + 1).contains(q) && !left_alone(q, cfg@) by {
                strmap::lemma_push_contains(seen, ks[i as int], q);
                assert(before.contains_key(q) <==> seen.contains(q) && !left_alone(q, cfg@));
            }
        }
        i = i + 1;
    }
    proof {
        assert(ks.take(i as int) =~= ks);
        let want = visible(cache@, cfg@);
        assert forall|p: Seq<char>| #[trigger] out@.contains_key(p) <==> want.contains_key(p) by {
            assert(cache@.dom().contains(p) <==> ks.contains(p));
        }
        assert(out@.dom() =~= want.dom());
        assert(out@ =~= want);
    }
    out
}

/// The paths that are not ignored, in the order in which they are listed.
pub fn unignored(listed: &Vec<String>, cfg: &Config) -> (r: Vec<String>)
    ensures
        text::texts(r@) == strmap::picked(text::texts(listed@), |p: Seq<char>| !left_alone(p, cfg@)),
{
    let ghost all = text::texts(listed@);
    let ghost pick = |p: Seq<char>| !left_alone(p, cfg@);
    let mut out: Vec<String> = Vec::new();
    let mut i: usize = 0;
    assert(text::texts(out@) =~= strmap::picked(all.take(0), pick));
    while i < listed.len()
        invariant
            i <= listed@.len(),
            all == text::texts(listed@),
            pick == (|p: Seq<char>| !left_alone(p, cfg@)),
            text::texts(out@) == strmap::picked(all.take(i as int), pick),
        decreases listed@.len() - i,
    {
        let ghost before = text::texts(out@);
        let p = &listed[i];
        proof {
            assert(all.take(i + 1).drop_last() =~= all.take(i as int));
            assert(all.take(i + 1).last() == p@);
        }
        if !should_ignore(p.as_str(), cfg) {
            out.push(p.clone());
            assert(text::texts(out@) =~= before.push(p@));
        }
        i = i + 1;
    }
    assert(all.take(i as int) =~= all);
    out
}

// ---------------------------------------------------------------------------------------
// Restoring the working tree
// ---------------------------------------------------------------------------------------
/// The paths of the working tree that have to go so that it holds `files`.
pub open spec fn surplus(present: Set<Seq<char>>, files: model::Files) -> Set<Seq<char>> {
    present.filter(|p: Seq<char>| !files.contains_key(p))
}

/// The paths of the working tree that have to go so that it holds `files`, in ascending order.
/// `present` are the paths that are there and not ignored.
pub fn surplus_files(present: &Vec<String>, files: &FileMap) -> (r: Vec<String>)
    ensures
        text::texts(r@) == strmap::ascending(surplus(text::texts(present@).to_set(), files@)),
{
    let sorted = paths::sorted_paths(present);
    let ghost all = text::texts(sorted@);
    let ghost set = text::texts(present@).to_set();
    let ghost pick = |p: Seq<char>| !files@.contains_key(p);
    let mut out: Vec<String> = Vec::new();
    let mut i: usize = 0;
    assert(text::texts(out@) =~= strmap::picked(all.take(0), pick));
    while i < sorted.len()
        invariant
            i <= sorted@.len(),
            all == text::texts(sorted@),
            pick == (|p: Seq<char>| !files@.contains_key(p)),
            text::texts(out@) == strmap::picked(all.take(i as int), pick),
        decreases sorted@.len() - i,
    {
        let ghost before = text::texts(out@);
        let p = &sorted[i];
        proof {
            assert(all.take(i + 1).drop_last() =~= all.take(i as int));
            assert(all.take(i + 1).last() == p@);
        }
        if !files.contains_key(p.as_str()) {
            out.push(p.clone());
            assert(text::texts(out@) =~= before.push(p@));
        }
        i = i + 1;
    }
    proof {
        assert(all.take(i as int) =~= all);
        vstd::seq_lib::seq_to_set_is_finite(text::texts(present@));
        strmap::lemma_listed(set);
        strmap::lemma_picked_ascending(all, set, pick);
    }
    out
}

/// The files that have to be written so that the working tree holds them: all that are not
/// ignored.
pub open spec fn wanted(files: model::Files, cfg: model::ConfigView) -> Set<Seq<char>> {
    files.dom().filter(|p: Seq<char>| !left_alone(p, cfg))
}

/// The paths of the files that have to be written, in ascending order.
pub fn files_to_write(files: &FileMap, cfg: &Config) -> (r: Vec<String>)
    ensures
        text::texts(r@) == strmap::ascending(wanted(files@, cfg@)),
{
    let n = files.len();
    let ghost ks = files.keys();
    let ghost pick = |p: Seq<char>| !left_alone(p, cfg@);
    let mut out: Vec<String> = Vec::new();
    let mut i: usize = 0;
    assert(text::texts(out@) =~= strmap::picked(ks.take(0), pick));
    while i < n
        invariant
            i <= n == ks.len(),
            ks == files.keys(),
            pick == (|p: Seq<char>| !left_alone(p, cfg@)),
            text::texts(out@) == strmap::picked(ks.take(i as int), pick),
        decreases n - i,
    {
        let ghost before = text::texts(out@);
        let p = files.key(i);
        proof {
            assert(ks.take(i + 1).drop_last() =~= ks.take(i as int));
            assert(ks.take(i + 1).last() == p@);
        }
        if !should_ignore(p.as_str(), cfg) {
            out.push(p.clone());
            assert(text::texts(out@) =~= before.push(p@));
        }
        i = i + 1;
    }
    proof {
        assert(ks.take(i as int) =~= ks);
        strmap::lemma_picked_ascending(ks, files@.dom(), pick);
    }
    out
}

// ---------------------------------------------------------------------------------------
// Laws
// ---------------------------------------------------------------------------------------
/// No path is staged both to be put and to be deleted.
pub open spec fn settled(idx: model::IndexView) -> bool {
    forall|p: Seq<char>| !(#[trigger] idx.put.contains_key(p) && idx.del.contains(p))
}

/// Staging files keeps what is to be put apart from what is to be deleted.
pub proof fn law_adding_keeps_settled(idx: model::IndexView, ps: Seq<Seq<char>>, es: Seq<model::IndexEntryView>)
    requires
        settled(idx),
    ensures
        settled(with_puts(idx, ps, es)),
    decreases ps.len(),
{
    if ps.len() > 0 && ps.len() == es.len() {
        law_adding_keeps_settled(idx, ps.drop_last(), es.drop_last());
        let before = with_puts(idx, ps.drop_last(), es.drop_last());
        assert forall|p: Seq<char>| !(#[trigger] with_puts(idx, ps, es).put.contains_key(p) && with_puts(
            idx,
            ps,
            es,
        ).del.contains(p)) by {
            assert(!(before.put.contains_key(p) && before.del.contains(p)));
        }
    }
}

/// Staging removals keeps what is to be put apart from what is to be deleted.
pub proof fn law_removing_keeps_settled(idx: model::IndexView, ps: Seq<Seq<char>>)
    requires
        settled(idx),
    ensures
        settled(with_dels(idx, ps)),
    decreases ps.len(),
{
    if ps.len() > 0 {
        law_removing_keeps_settled(idx, ps.drop_last());
        let before = with_dels(idx, ps.drop_last());
        if ps.last().len() > 0 {
            assert forall|p: Seq<char>| !(#[trigger] with_dels(idx, ps).put.contains_key(p) && with_dels(
                idx,
                ps,
            ).del.contains(p)) by {
                assert(!(before.put.contains_key(p) && before.del.contains(p)));
            }
        }
    }
}

/// Committing an index that puts every one of `files` gives those files, provided that the
/// parent has no other path: the index deletes none.
pub proof fn law_index_of_all_stages_all(parent: model::Files, files: model::Files, stats: Seq<(u64, u64)>)
    requires
        parent.dom().subset_of(files.dom()),
    ensures
        changes::staged(parent, index_of(files, stats)) == files,
{
    let r = changes::staged(parent, index_of(files, stats));
    assert forall|p: Seq<char>| #[trigger] r.contains_key(p) <==> files.contains_key(p) by {
        assert(parent.dom().contains(p) ==> files.dom().contains(p));
    }
    assert(r.dom() =~= files.dom());
    assert(r =~= files);
}

/// A file that was recorded is not read again while its time and size stay the same.
pub proof fn law_recorded_files_are_fresh(
    cache: Map<Seq<char>, model::IndexEntryView>,
    p: Seq<char>,
    e: model::IndexEntryView,
)
    requires
        e.hash.len() > 0,
    ensures
        is_fresh(cache.insert(p, e), p, e.mtime, e.size),
        forall|m: u64, s: u64| (m != e.mtime || s != e.size) ==> !(#[trigger] is_fresh(cache.insert(p, e), p, m, s)),
{
}

/// Restoring leaves every ignored path alone: none is among those that go, as long as those
/// that are there are listed without it, and none is written.
pub proof fn law_restore_spares_ignored(present: Set<Seq<char>>, files: model::Files, cfg: model::ConfigView, p: Seq<char>)
    requires
        forall|q: Seq<char>| #[trigger] present.contains(q) ==> !left_alone(q, cfg),
        left_alone(p, cfg),
    ensures
        !surplus(present, files).contains(p),
        !wanted(files, cfg).contains(p),
{
}

/// After a restore the working tree holds, of what is not ignored, exactly the paths of `files`.
pub proof fn law_restore_gives_the_files(present: Set<Seq<char>>, files: model::Files, cfg: model::ConfigView)
    requires
        forall|q: Seq<char>| #[trigger] present.contains(q) ==> !left_alone(q, cfg),
    ensures
        present.difference(surplus(present, files)).union(wanted(files, cfg)) == wanted(files, cfg),
{
    assert(present.difference(surplus(present, files)).union(wanted(files, cfg)) =~= wanted(files, cfg));
}

/// Staging files puts each with its entry, whatever was staged at its path before, takes back a
/// deletion there, and changes nothing at any other path.
pub proof fn law_staging_puts_each_file(
    idx: model::IndexView,
    ps: Seq<Seq<char>>,
    es: Seq<model::IndexEntryView>,
    p: Seq<char>,
)
    requires
        ps.len() == es.len(),
        ps.no_duplicates(),
    ensures
        forall|i: int|
            0 <= i < ps.len() ==> with_puts(idx, ps, es).put.contains_pair(#[trigger] ps[i], es[i]) && !with_puts(
                idx,
                ps,
                es,
            ).del.contains(ps[i]),
        !ps.contains(p) ==> (with_puts(idx, ps, es).put.contains_key(p) <==> idx.put.contains_key(p)),
        !ps.contains(p) && idx.put.contains_key(p) ==> with_puts(idx, ps, es).put[p] == idx.put[p],
        !ps.contains(p) ==> (with_puts(idx, ps, es).del.contains(p) <==> idx.del.contains(p)),
    decreases ps.len(),
{
    if ps.len() > 0 {
        let fp = ps.drop_last();
        let fe = es.drop_last();
        law_staging_puts_each_file(idx, fp, fe, p);
        assert(ps =~= fp.push(ps.last()));
        strmap::lemma_push_contains(fp, ps.last(), p);
        assert forall|i: int| 0 <= i < ps.len() implies with_puts(idx, ps, es).put.contains_pair(
            #[trigger] ps[i],
            es[i],
        ) && !with_puts(idx, ps, es).del.contains(ps[i]) by {
            if i < fp.len() {
                assert(fp[i] == ps[i]);
                assert(ps[i] != ps[ps.len() - 1]);
            }
        }
    }
}

/// Of entries that are staged for the same path one after the other the last one counts.
pub proof fn law_staging_again_counts(idx: model::IndexView, p: Seq<char>, a: model::IndexEntryView, b: model::IndexEntryView)
    ensures
        with_puts(with_puts(idx, seq![p], seq![a]), seq![p], seq![b]).put == idx.put.insert(p, b),
        with_puts(idx, seq![p, p], seq![a, b]).put == idx.put.insert(p, b),
{
    let one = seq![p];
    let x = seq![a];
    let y = seq![b];
    law_staging_puts_each_file(idx, one, x, p);
    let mid = with_puts(idx, one, x);
    assert(one.drop_last() =~= Seq::empty() && x.drop_last() =~= Seq::empty() && y.drop_last() =~= Seq::empty());
    assert(with_puts(idx, one.drop_last(), x.drop_last()) == idx);
    assert(with_puts(mid, one.drop_last(), y.drop_last()) == mid);
    assert(with_puts(mid, one, y).put =~= idx.put.insert(p, b));
    let two = seq![p, p];
    let e2 = seq![a, b];
    assert(two.drop_last() =~= one && e2.drop_last() =~= x);
    assert(with_puts(idx, two, e2).put =~= idx.put.insert(p, b));
}

/// Staging removals deletes each path that is not empty, takes back a put there, and changes
/// nothing at any other path.
pub proof fn law_staging_removes_each_file(idx: model::IndexView, ps: Seq<Seq<char>>, p: Seq<char>)
    ensures
        ps.contains(p) && p.len() > 0 ==> with_dels(idx, ps).del.contains(p) && !with_dels(idx, ps).put.contains_key(p),
        !ps.contains(p) || p.len() == 0 ==> (with_dels(idx, ps).del.contains(p) <==> idx.del.contains(p)) && (with_dels(
            idx,
            ps,
        ).put.contains_key(p) <==> idx.put.contains_key(p)),
        with_dels(idx, ps).put.contains_key(p) ==> with_dels(idx, ps).put[p] == idx.put[p],
    decreases ps.len(),
{
    if ps.len() > 0 {
        let f = ps.drop_last();
        law_staging_removes_each_file(idx, f, p);
        assert(ps =~= f.push(ps.last()));
        strmap::lemma_push_contains(f, ps.last(), p);
    }
}

/// Adding a file and removing it again, or the other way round: what came last is staged.
pub proof fn law_last_staging_counts(idx: model::IndexView, p: Seq<char>, e: model::IndexEntryView)
    requires
        p.len() > 0,
    ensures
        ({
            let r = with_dels(with_puts(idx, seq![p], seq![e]), seq![p]);
            r.del.contains(p) && !r.put.contains_key(p)
        }),
        ({
            let r = with_puts(with_dels(idx, seq![p]), seq![p], seq![e]);
            r.put.contains_pair(p, e) && !r.del.contains(p)
        }),
{
    let one = seq![p];
    assert(one[0] == p);
    assert(one.contains(p));
    law_staging_removes_each_file(with_puts(idx, one, seq![e]), one, p);
    law_staging_puts_each_file(with_dels(idx, one), one, seq![e], p);
    assert(seq![e][0] == e);
}

/// An index of all files puts exactly the files, each with its hash and with the time and size
/// that stand at the place of its path, and deletes nothing.
pub proof fn law_index_of_all_tells_each_file(files: model::Files, stats: Seq<(u64, u64)>, p: Seq<char>)
    requires
        files.dom().finite(),
    ensures
        index_of(files, stats).put.contains_key(p) <==> files.contains_key(p),
        files.contains_key(p) ==> index_of(files, stats).put[p].hash == files[p],
        forall|i: int|
            0 <= i < strmap::ascending(files.dom()).len() && #[trigger] strmap::ascending(files.dom())[i] == p
                ==> index_of(files, stats).put[p].mtime == stats[i].0 && index_of(files, stats).put[p].size == stats[i].1,
        !index_of(files, stats).del.contains(p),
{
    let ks = strmap::lemma_listed(files.dom());
    assert forall|i: int| 0 <= i < ks.len() && #[trigger] ks[i] == p implies index_of(files, stats).put[p].mtime
        == stats[i].0 && index_of(files, stats).put[p].size == stats[i].1 by {
        assert(ks.contains(p));
        assert(files.dom().contains(p));
        let j = ks.index_of(p);
        strmap::lemma_lists_distinct(ks, files.dom(), i, j);
    }
}

/// A file is skipped exactly where it is recorded with this time and this size and with a hash.
pub proof fn law_skipping_needs_a_record(
    cache: Map<Seq<char>, model::IndexEntryView>,
    p: Seq<char>,
    mtime: u64,
    size: u64,
)
    ensures
        is_fresh(cache, p, mtime, size) <==> exists|e: model::IndexEntryView| #[trigger]
            cache.contains_pair(p, e) && e.mtime == mtime && e.size == size && e.hash != Seq::<char>::empty(),
{
    if is_fresh(cache, p, mtime, size) {
        assert(cache.contains_pair(p, cache[p]));
    }
    if cache.contains_key(p) && cache[p].hash.len() == 0 {
        assert(cache[p].hash =~= Seq::<char>::empty());
    }
}

/// Recording files records each with its entry, whatever was recorded before, and changes no other
/// record.
pub proof fn law_recording_tells_each_file(
    cache: Map<Seq<char>, model::IndexEntryView>,
    ps: Seq<Seq<char>>,
    es: Seq<model::IndexEntryView>,
    p: Seq<char>,
)
    requires
        ps.len() == es.len(),
        ps.no_duplicates(),
    ensures
        forall|i: int| 0 <= i < ps.len() ==> with_records(cache, ps, es).contains_pair(#[trigger] ps[i], es[i]),
        !ps.contains(p) ==> (with_records(cache, ps, es).contains_key(p) <==> cache.contains_key(p)),
        !ps.contains(p) && cache.contains_key(p) ==> with_records(cache, ps, es)[p] == cache[p],
    decreases ps.len(),
{
    if ps.len() > 0 {
        let fp = ps.drop_last();
        let fe = es.drop_last();
        law_recording_tells_each_file(cache, fp, fe, p);
        assert(ps =~= fp.push(ps.last()));
        strmap::lemma_push_contains(fp, ps.last(), p);
        assert forall|i: int| 0 <= i < ps.len() implies with_records(cache, ps, es).contains_pair(
            #[trigger] ps[i],
            es[i],
        ) by {
            if i < fp.len() {
                assert(fp[i] == ps[i]);
                assert(ps[i] != ps[ps.len() - 1]);
            }
        }
    }
}

/// The working tree is taken to hold exactly the recorded files that are not ignored, each with
/// the recorded hash.
pub proof fn law_visible_files_are_recorded(cache: Map<Seq<char>, model::IndexEntryView>, cfg: model::ConfigView, p: Seq<char>)
    ensures
        visible(cache, cfg).contains_key(p) <==> cache.contains_key(p) && !ignore::ignored(
            p,
            cfg,
            ignore::said_by(cfg.sparse, p),
        ),
        visible(cache, cfg).contains_key(p) ==> visible(cache, cfg)[p] == cache[p].hash,
{
}

/// A path is written by a restore exactly where it is a path of the files and not ignored, and a
/// path that is there is removed exactly where the files lack it.
pub proof fn law_restore_at_each_path(present: Set<Seq<char>>, files: model::Files, cfg: model::ConfigView, p: Seq<char>)
    ensures
        wanted(files, cfg).contains(p) <==> files.contains_key(p) && !ignore::ignored(
            p,
            cfg,
            ignore::said_by(cfg.sparse, p),
        ),
        surplus(present, files).contains(p) <==> present.contains(p) && !files.contains_key(p),
{
}

/// After a restore every path of the files that is not ignored is in the working tree, and of what
/// was there before only paths of the files are left. The working tree after a restore is what was
/// there without the removed paths and with the written ones.
pub proof fn law_restored_tree_holds_the_files(
    present: Set<Seq<char>>,
    files: model::Files,
    cfg: model::ConfigView,
    p: Seq<char>,
)
    requires
        files.dom().finite(),
        present.finite(),
    ensures
        ({
            let gone = strmap::ascending(surplus(present, files));
            let written = strmap::ascending(wanted(files, cfg));
            let there = (present.contains(p) && !gone.contains(p)) || written.contains(p);
            &&& files.contains_key(p) && !ignore::ignored(p, cfg, ignore::said_by(cfg.sparse, p)) ==> there
            &&& there ==> files.contains_key(p)
            &&& files.contains_key(p) && present.contains(p) ==> there && !gone.contains(p)
        }),
{
    let gone = strmap::lemma_listed(surplus(present, files));
    let written = strmap::lemma_listed(wanted(files, cfg));
    assert(gone.contains(p) <==> surplus(present, files).contains(p));
    assert(written.contains(p) <==> wanted(files, cfg).contains(p));
}

/// Lists of entries say what each of them says.
pub proof fn law_entries_say_each_member(v: Seq<IndexEntry>, i: int)
    ensures
        entry_views(v).len() == v.len(),
        0 <= i < v.len() ==> entry_views(v)[i] == v[i]@,
{
}

} // verus!

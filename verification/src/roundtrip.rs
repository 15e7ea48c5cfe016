//! What is built from the files of a commit says those files again when it is read back.

use vstd::prelude::*;
use vstd::string::*;

use crate::changes;
use crate::model;
use crate::strmap;
use crate::text;
use crate::tree;
use crate::tree::Node;
use crate::walk;

verus! {

/// The listings of the node and of all below it can be read back, the node's own under the
/// hash `h`.
pub open spec fn stored(t: walk::TreesView, n: Node, h: Seq<char>) -> bool
    decreases n,
{
    exists|hs: Seq<Seq<char>>|
        {
            &&& hs.len() == n.dirs@.len()
            &&& t.contains_key(h)
            &&& t[h] == tree::by_name(#[trigger] tree::node_entries(n, hs))
            &&& forall|j: int| 0 <= j < n.dirs@.len() ==> stored(t, (#[trigger] n.dirs@[j]).1, hs[j])
        }
}

/// The path that the names `parts` lead to from `prefix`.
pub open spec fn path_at(prefix: Seq<char>, parts: Seq<Seq<char>>) -> Seq<char>
    decreases parts.len(),
{
    if parts.len() == 0 {
        prefix
    } else {
        path_at(walk::child_path(prefix, parts[0]), parts.drop_first())
    }
}

/// A path that is nothing but names with one slash between two of them.
pub open spec fn canonical(p: Seq<char>) -> bool {
    p.len() > 0 && path_at(Seq::empty(), text::path_parts(p)) == p
}

/// Files at the same path have the same hash.
spec fn consistent(prefix: Seq<char>, items: tree::Items) -> bool {
    forall|a: int, b: int|
        0 <= a < items.len() && 0 <= b < items.len() && items[a].0.len() > 0 && items[b].0.len() > 0
            && path_at(prefix, (#[trigger] items[a]).0) == path_at(prefix, (#[trigger] items[b]).0)
            ==> items[a].1 == items[b].1
}

/// No file has more than `depth` names along its path.
spec fn within(items: tree::Items, depth: nat) -> bool {
    forall|i: int| 0 <= i < items.len() ==> (#[trigger] items[i]).0.len() <= depth
}

/// `m` has the file `it`.
spec fn has_file(m: model::Files, prefix: Seq<char>, it: (Seq<Seq<char>>, Seq<char>)) -> bool {
    m.contains_key(path_at(prefix, it.0)) && m[path_at(prefix, it.0)] == it.1
}

/// The entry `e` is that of the file `it`, or of the subdirectory that the file stands in.
spec fn covers(e: model::TreeEntryView, it: (Seq<Seq<char>>, Seq<char>)) -> bool {
    ||| e.kind == "blob"@ && it.0.len() == 1 && it.0[0] == e.name
    ||| e.kind == "tree"@ && it.0.len() >= 2 && it.0[0] == e.name
}

/// Nothing stands at `k` that is covered by one of the entries.
spec fn untouched(prefix: Seq<char>, items: tree::Items, es: Seq<model::TreeEntryView>, k: Seq<char>) -> bool {
    forall|i: int, j: int|
        0 <= i < items.len() && 0 <= j < es.len() && covers(#[trigger] es[j], #[trigger] items[i])
            ==> path_at(prefix, items[i].0) != k
}

/// `m` and `out` say the same of `k`.
spec fn same_at(m: model::Files, out: model::Files, k: Seq<char>) -> bool {
    (m.contains_key(k) <==> out.contains_key(k)) && (m.contains_key(k) ==> m[k] == out[k])
}

// ---------------------------------------------------------------------------------------
// What the entries of a node are
// ---------------------------------------------------------------------------------------
proof fn lemma_placed_contains(s: Seq<model::TreeEntryView>, e: model::TreeEntryView, x: model::TreeEntryView)
    ensures
        tree::placed(s, e).contains(x) <==> s.contains(x) || x == e,
    decreases s.len(),
{
    if s.len() > 0 && text::lex_lt(e.name, s.last().name) {
        lemma_placed_contains(s.drop_last(), e, x);
        strmap::lemma_push_contains(tree::placed(s.drop_last(), e), s.last(), x);
        strmap::lemma_push_contains(s.drop_last(), s.last(), x);
        assert(s =~= s.drop_last().push(s.last()));
    } else {
        strmap::lemma_push_contains(s, e, x);
    }
}

proof fn lemma_by_name_contains(s: Seq<model::TreeEntryView>, x: model::TreeEntryView)
    ensures
        tree::by_name(s).contains(x) <==> s.contains(x),
    decreases s.len(),
{
    if s.len() > 0 {
        lemma_by_name_contains(s.drop_last(), x);
        lemma_placed_contains(tree::by_name(s.drop_last()), s.last(), x);
        strmap::lemma_push_contains(s.drop_last(), s.last(), x);
        assert(s =~= s.drop_last().push(s.last()));
    }
}

proof fn lemma_blobs_in(items: tree::Items, b: (Seq<char>, Seq<char>))
    ensures
        tree::blobs_in(items).contains(b) <==> exists|i: int|
            0 <= i < items.len() && (#[trigger] items[i]).0.len() == 1 && items[i].0[0] == b.0
                && items[i].1 == b.1,
    decreases items.len(),
{
    if items.len() > 0 {
        let f = items.drop_last();
        lemma_blobs_in(f, b);
        if items.last().0.len() == 1 {
            strmap::lemma_push_contains(tree::blobs_in(f), (items.last().0[0], items.last().1), b);
        }
        if tree::blobs_in(f).contains(b) {
            let i = choose|i: int|
                0 <= i < f.len() && (#[trigger] f[i]).0.len() == 1 && f[i].0[0] == b.0 && f[i].1 == b.1;
            assert(items[i] == f[i]);
        }
        if exists|i: int|
            0 <= i < items.len() && (#[trigger] items[i]).0.len() == 1 && items[i].0[0] == b.0
                && items[i].1 == b.1 {
            let i = choose|i: int|
                0 <= i < items.len() && (#[trigger] items[i]).0.len() == 1 && items[i].0[0] == b.0
                    && items[i].1 == b.1;
            if i < f.len() {
                assert(f[i] == items[i]);
            } else {
                assert(b == (items.last().0[0], items.last().1));
            }
        }
    }
}

proof fn lemma_under_from(items: tree::Items, d: Seq<char>, k: int) -> (i: int)
    requires
        0 <= k < tree::items_under(items, d).len(),
    ensures
        0 <= i < items.len(),
        items[i].0.len() >= 2,
        items[i].0[0] == d,
        tree::items_under(items, d)[k] == (items[i].0.drop_first(), items[i].1),
    decreases items.len(),
{
    let f = items.drop_last();
    let u = tree::items_under(f, d);
    if k < u.len() {
        let i = lemma_under_from(f, d, k);
        assert(f[i] == items[i]);
        i
    } else {
        items.len() - 1
    }
}

proof fn lemma_under_to(items: tree::Items, d: Seq<char>, i: int) -> (k: int)
    requires
        0 <= i < items.len(),
        items[i].0.len() >= 2,
        items[i].0[0] == d,
    ensures
        0 <= k < tree::items_under(items, d).len(),
        tree::items_under(items, d)[k] == (items[i].0.drop_first(), items[i].1),
    decreases items.len(),
{
    let f = items.drop_last();
    if i < f.len() {
        assert(f[i] == items[i]);
        lemma_under_to(f, d, i)
    } else {
        tree::items_under(f, d).len() as int
    }
}

/// Every entry of a node is that of one of its files, or that of one of its subdirectories.
proof fn lemma_entry_source(n: Node, items: tree::Items, hs: Seq<Seq<char>>, e: model::TreeEntryView)
    requires
        tree::holds(n, items),
        hs.len() == n.dirs@.len(),
        tree::node_entries(n, hs).contains(e),
    ensures
        (e.kind == "blob"@ && exists|i: int|
            0 <= i < items.len() && (#[trigger] items[i]).0.len() == 1 && items[i].0[0] == e.name
                && items[i].1 == e.hash) || (e.kind == "tree"@ && exists|j: int|
            0 <= j < n.dirs@.len() && (#[trigger] n.dirs@[j]).0@ == e.name && hs[j] == e.hash),
{
    let es = tree::node_entries(n, hs);
    let x = choose|x: int| 0 <= x < es.len() && es[x] == e;
    let nb = n.blobs@.len() as int;
    if x < nb {
        let shape = |b: (String, String)| (b.0@, b.1@);
        let bs = n.blobs@.map_values(shape);
        assert(bs[x] == (n.blobs@[x].0@, n.blobs@[x].1@));
        assert(bs.contains(bs[x]));
        lemma_blobs_in(items, bs[x]);
    } else {
        assert(n.dirs@[x - nb].0@ == e.name && hs[x - nb] == e.hash);
    }
}

/// Every file has an entry in the node, its own or that of its subdirectory.
proof fn lemma_entry_for(n: Node, items: tree::Items, hs: Seq<Seq<char>>, i: int)
    requires
        tree::holds(n, items),
        strmap::lists(strmap::ascending(tree::dirs_in(items)), tree::dirs_in(items)),
        hs.len() == n.dirs@.len(),
        0 <= i < items.len(),
        items[i].0.len() > 0,
    ensures
        exists|x: int|
            0 <= x < tree::node_entries(n, hs).len() && covers(
                #[trigger] tree::node_entries(n, hs)[x],
                items[i],
            ),
{
    let es = tree::node_entries(n, hs);
    let nb = n.blobs@.len() as int;
    if items[i].0.len() == 1 {
        let b = (items[i].0[0], items[i].1);
        lemma_blobs_in(items, b);
        let shape = |b: (String, String)| (b.0@, b.1@);
        let bs = n.blobs@.map_values(shape);
        assert(bs == tree::blobs_in(items));
        let x = choose|x: int| 0 <= x < bs.len() && bs[x] == b;
        assert(covers(es[x], items[i]));
    } else {
        let d = items[i].0[0];
        assert(tree::dirs_in(items).contains(d));
        let ds = strmap::ascending(tree::dirs_in(items));
        assert(ds.contains(d));
        let j = choose|j: int| 0 <= j < ds.len() && ds[j] == d;
        assert(n.dirs@.map_values(|d: (String, Node)| d.0@)[j] == d);
        assert(es[nb + j].name == d);
        assert(covers(es[nb + j], items[i]));
    }
}

/// The subdirectories of finitely many files can be listed.
proof fn lemma_dirs_listed(items: tree::Items) -> (s: Seq<Seq<char>>)
    ensures
        strmap::lists(s, tree::dirs_in(items)),
        strmap::ascending(tree::dirs_in(items)) == s,
    decreases items.len(),
{
    if items.len() == 0 {
        let s = Seq::<Seq<char>>::empty();
        assert(strmap::lists(s, tree::dirs_in(items)));
        strmap::lemma_ascending(s, tree::dirs_in(items));
        s
    } else {
        let f = items.drop_last();
        let u = lemma_dirs_listed(f);
        tree::lemma_dirs_step(items, items.len() - 1);
        assert(items.take(items.len() - 1) =~= f);
        assert(items.take(items.len() as int) =~= items);
        let s = if items.last().0.len() >= 2 {
            strmap::lemma_lists_insert(u, tree::dirs_in(f), items.last().0[0])
        } else {
            u
        };
        strmap::lemma_ascending(s, tree::dirs_in(items));
        s
    }
}

// ---------------------------------------------------------------------------------------
// Reading back
// ---------------------------------------------------------------------------------------
/// The node `n` arranges `items`, is stored under `h` with its subdirectories under `hs`,
/// and stands at `prefix`.
spec fn in_place(t: walk::TreesView, n: Node, items: tree::Items, h: Seq<char>, hs: Seq<Seq<char>>, prefix: Seq<char>) -> bool {
    &&& tree::holds(n, items)
    &&& consistent(prefix, items)
    &&& hs.len() == n.dirs@.len()
    &&& t.contains_key(h)
    &&& t[h] == tree::by_name(tree::node_entries(n, hs))
    &&& forall|j: int| 0 <= j < n.dirs@.len() ==> stored(t, (#[trigger] n.dirs@[j]).1, hs[j])
}

proof fn lemma_child_consistent(prefix: Seq<char>, items: tree::Items, d: Seq<char>, depth: nat)
    requires
        consistent(prefix, items),
        within(items, depth),
    ensures
        consistent(walk::child_path(prefix, d), tree::items_under(items, d)),
        depth > 0 ==> within(tree::items_under(items, d), (depth - 1) as nat),
{
    let u = tree::items_under(items, d);
    let q = walk::child_path(prefix, d);
    assert forall|a: int, b: int|
        0 <= a < u.len() && 0 <= b < u.len() && u[a].0.len() > 0 && u[b].0.len() > 0 && path_at(
            q,
            (#[trigger] u[a]).0,
        ) == path_at(q, (#[trigger] u[b]).0) implies u[a].1 == u[b].1 by {
        let i = lemma_under_from(items, d, a);
        let j = lemma_under_from(items, d, b);
        assert(path_at(prefix, items[i].0) == path_at(q, u[a].0));
        assert(path_at(prefix, items[j].0) == path_at(q, u[b].0));
    }
    assert forall|a: int| 0 <= a < u.len() && depth > 0 implies (#[trigger] u[a]).0.len() <= depth - 1 by {
        let i = lemma_under_from(items, d, a);
    }
}

/// The files after the first `k` entries of the node's listing.
proof fn lemma_entries_back(
    t: walk::TreesView,
    n: Node,
    items: tree::Items,
    h: Seq<char>,
    hs: Seq<Seq<char>>,
    prefix: Seq<char>,
    f: nat,
    k: int,
    out: model::Files,
) -> (m: model::Files)
    requires
        in_place(t, n, items, h, hs, prefix),
        within(items, f + 1),
        0 <= k <= t[h].len(),
    ensures
        walk::flat_entries(t, f, prefix, t[h].take(k), out) == Ok::<model::Files, walk::TreeError>(m),
        forall|i: int, j: int|
            0 <= i < items.len() && 0 <= j < k && covers(#[trigger] t[h][j], #[trigger] items[i])
                ==> has_file(m, prefix, items[i]),
        forall|x: Seq<char>| untouched(prefix, items, t[h].take(k), x) ==> #[trigger] same_at(m, out, x),
        forall|j: int|
            0 <= j < k && (#[trigger] t[h][j]).kind == "tree"@ ==> walk::nests(t, f, t[h][j].hash),
    decreases n, k,
{
    let all = t[h];
    if k == 0 {
        return out;
    }
    let m0 = lemma_entries_back(t, n, items, h, hs, prefix, f, k - 1, out);
    let es = all.take(k);
    let e = all[k - 1];
    assert(es.drop_last() =~= all.take(k - 1));
    assert(es.last() == e);
    assert(all.contains(e));
    lemma_by_name_contains(tree::node_entries(n, hs), e);
    lemma_entry_source(n, items, hs, e);
    walk::lemma_kinds_differ();
    let q = walk::child_path(prefix, e.name);
    let m: model::Files;
    if e.kind == "blob"@ {
        m = m0.insert(q, e.hash);
        let s = choose|i: int|
            0 <= i < items.len() && (#[trigger] items[i]).0.len() == 1 && items[i].0[0] == e.name
                && items[i].1 == e.hash;
        lemma_path_one(prefix, items[s].0);
        assert forall|i: int, j: int|
            0 <= i < items.len() && 0 <= j < k && covers(#[trigger] all[j], #[trigger] items[i]) implies has_file(m, prefix, items[i]) by {
            if j < k - 1 {
                assert(has_file(m0, prefix, items[i]));
            } else {
                lemma_path_one(prefix, items[i].0);
            }
            if path_at(prefix, items[i].0) == q {
                assert(path_at(prefix, items[s].0) == q);
                assert(items[i].1 == items[s].1);
            }
        }
        assert forall|x: Seq<char>| untouched(prefix, items, es, x) implies #[trigger] same_at(m, out, x) by {
            assert(covers(es[k - 1], items[s]));
            assert(path_at(prefix, items[s].0) != x);
            assert forall|i: int, j: int|
                0 <= i < items.len() && 0 <= j < all.take(k - 1).len() && covers(
                    #[trigger] all.take(k - 1)[j],
                    #[trigger] items[i],
                ) implies path_at(prefix, items[i].0) != x by {
                assert(es[j] == all.take(k - 1)[j]);
            }
            assert(same_at(m0, out, x));
        }
    } else {
        let d = choose|d: int|
            0 <= d < n.dirs@.len() && (#[trigger] n.dirs@[d]).0@ == e.name && hs[d] == e.hash;
        let child = n.dirs@[d].1;
        let under = tree::items_under(items, e.name);
        lemma_child_consistent(prefix, items, e.name, f + 1);
        lemma_depth_positive(n, items, d, f);
        m = lemma_node_back(t, child, under, e.hash, q, f, m0);
        assert forall|i: int, j: int|
            0 <= i < items.len() && 0 <= j < k && covers(#[trigger] all[j], #[trigger] items[i]) implies has_file(m, prefix, items[i]) by {
            let x = path_at(prefix, items[i].0);
            if items[i].0.len() >= 2 && items[i].0[0] == e.name {
                let u = lemma_under_to(items, e.name, i);
                assert(under[u].0.len() > 0);
                assert(path_at(q, under[u].0) == x);
                assert(has_file(m, q, under[u]));
            } else {
                assert(j < k - 1);
                assert(has_file(m0, prefix, items[i]));
                if exists|u: int| 0 <= u < under.len() && (#[trigger] under[u]).0.len() > 0 && path_at(q, under[u].0) == x {
                    let u = choose|u: int| 0 <= u < under.len() && (#[trigger] under[u]).0.len() > 0 && path_at(q, under[u].0) == x;
                    let i2 = lemma_under_from(items, e.name, u);
                    assert(path_at(prefix, items[i2].0) == x);
                    assert(items[i2].1 == items[i].1);
                    assert(has_file(m, q, under[u]));
                } else {
                    assert(same_at(m, m0, x));
                }
            }
        }
        assert forall|x: Seq<char>| untouched(prefix, items, es, x) implies #[trigger] same_at(m, out, x) by {
            assert forall|i: int, j: int|
                0 <= i < items.len() && 0 <= j < all.take(k - 1).len() && covers(
                    #[trigger] all.take(k - 1)[j],
                    #[trigger] items[i],
                ) implies path_at(prefix, items[i].0) != x by {
                assert(es[j] == all.take(k - 1)[j]);
            }
            assert(same_at(m0, out, x));
            assert forall|u: int| 0 <= u < under.len() && (#[trigger] under[u]).0.len() > 0 implies path_at(q, under[u].0) != x by {
                let i2 = lemma_under_from(items, e.name, u);
                assert(covers(es[k - 1], items[i2]));
                assert(path_at(prefix, items[i2].0) == path_at(q, under[u].0));
            }
            assert(same_at(m, m0, x));
        }
    }
    m
}

proof fn lemma_path_one(prefix: Seq<char>, parts: Seq<Seq<char>>)
    requires
        parts.len() == 1,
    ensures
        path_at(prefix, parts) == walk::child_path(prefix, parts[0]),
{
    assert(path_at(walk::child_path(prefix, parts[0]), parts.drop_first()) == walk::child_path(
        prefix,
        parts[0],
    ));
}

/// A subdirectory holds files, so its files are at least two names deep.
proof fn lemma_depth_positive(n: Node, items: tree::Items, d: int, f: nat)
    requires
        tree::holds(n, items),
        0 <= d < n.dirs@.len(),
        within(items, f + 1),
    ensures
        f >= 1,
{
    let s = lemma_dirs_listed(items);
    assert(n.dirs@.map_values(|d: (String, Node)| d.0@)[d] == s[d]);
    assert(s.contains(s[d]));
    assert(tree::dirs_in(items).contains(s[d]));
}

/// Reading a stored node back gives its files and leaves all others alone.
proof fn lemma_node_back(
    t: walk::TreesView,
    n: Node,
    items: tree::Items,
    h: Seq<char>,
    prefix: Seq<char>,
    fuel: nat,
    out: model::Files,
) -> (m: model::Files)
    requires
        tree::holds(n, items),
        consistent(prefix, items),
        within(items, fuel),
        fuel >= 1,
        stored(t, n, h),
    ensures
        walk::flat_tree(t, fuel, prefix, h, out) == Ok::<model::Files, walk::TreeError>(m),
        forall|i: int|
            0 <= i < items.len() && items[i].0.len() > 0 ==> has_file(m, prefix, #[trigger] items[i]),
        forall|x: Seq<char>|
            (forall|i: int|
                0 <= i < items.len() && (#[trigger] items[i]).0.len() > 0 ==> path_at(
                    prefix,
                    items[i].0,
                ) != x) ==> #[trigger] same_at(m, out, x),
        walk::nests(t, fuel, h),
    decreases n, t[h].len() + 1,
{
    let f = (fuel - 1) as nat;
    let hs = choose|hs: Seq<Seq<char>>|
        {
            &&& hs.len() == n.dirs@.len()
            &&& t.contains_key(h)
            &&& t[h] == tree::by_name(#[trigger] tree::node_entries(n, hs))
            &&& forall|j: int| 0 <= j < n.dirs@.len() ==> stored(t, (#[trigger] n.dirs@[j]).1, hs[j])
        };
    let all = t[h];
    let m = lemma_entries_back(t, n, items, h, hs, prefix, f, all.len() as int, out);
    assert(all.take(all.len() as int) =~= all);
    let s = lemma_dirs_listed(items);
    assert forall|i: int| 0 <= i < items.len() && items[i].0.len() > 0 implies has_file(m, prefix, #[trigger] items[i]) by {
        lemma_entry_for(n, items, hs, i);
        let es = tree::node_entries(n, hs);
        let x = choose|x: int| 0 <= x < es.len() && covers(#[trigger] es[x], items[i]);
        assert(es.contains(es[x]));
        lemma_by_name_contains(es, es[x]);
        let j = choose|j: int| 0 <= j < all.len() && all[j] == es[x];
        assert(covers(all[j], items[i]));
    }
    assert forall|x: Seq<char>|
        (forall|i: int|
            0 <= i < items.len() && (#[trigger] items[i]).0.len() > 0 ==> path_at(prefix, items[i].0)
                != x) implies #[trigger] same_at(m, out, x) by {
        assert(untouched(prefix, items, all.take(all.len() as int), x));
    }
    m
}

/// Building the tree of a set of files and flattening it again gives those files, provided
/// that each path is nothing but names with single slashes between them.
pub proof fn law_tree_round_trip(t: walk::TreesView, files: model::Files, n: Node, root: Seq<char>)
    requires
        t.dom().finite(),
        files.dom().finite(),
        forall|p: Seq<char>| #[trigger] files.contains_key(p) ==> canonical(p),
        tree::holds(n, tree::items_of(files)),
        stored(t, n, root),
    ensures
        walk::flat(t, root) == Ok::<model::Files, walk::TreeError>(files),
{
    let items = tree::items_of(files);
    let keys = strmap::lemma_listed(files.dom());
    let e = Seq::<char>::empty();
    assert forall|i: int| 0 <= i < items.len() implies (#[trigger] items[i]) == (text::path_parts(keys[i]), files[keys[i]]) && files.contains_key(keys[i]) by {
        assert(keys.contains(keys[i]));
        assert(files.dom().contains(keys[i]));
    }
    assert(consistent(e, items)) by {
        assert forall|a: int, b: int|
            0 <= a < items.len() && 0 <= b < items.len() && items[a].0.len() > 0 && items[b].0.len() > 0
                && path_at(e, (#[trigger] items[a]).0) == path_at(e, (#[trigger] items[b]).0) implies items[a].1 == items[b].1 by {
            assert(canonical(keys[a]) && canonical(keys[b]));
        }
    }
    let depth = lemma_depth_bound(items, items.len() as int);
    let m = lemma_node_back(t, n, items, root, e, depth, Map::empty());
    assert forall|p: Seq<char>|
        (#[trigger] m.contains_key(p) <==> files.contains_key(p)) && (files.contains_key(p) ==> m[p]
            == files[p]) by {
        if files.contains_key(p) {
            assert(files.dom().contains(p));
            assert(keys.contains(p));
            let i = choose|i: int| 0 <= i < keys.len() && keys[i] == p;
            assert(items[i].0 == text::path_parts(p));
            assert(canonical(p));
            if items[i].0.len() == 0 {
                assert(path_at(e, items[i].0) == e);
            }
            assert(has_file(m, e, items[i]));
        } else {
            assert forall|i: int| 0 <= i < items.len() && (#[trigger] items[i]).0.len() > 0 implies path_at(e, items[i].0) != p by {
                assert(canonical(keys[i]));
            }
            assert(same_at(m, Map::empty(), p));
        }
    }
    assert(m.dom() =~= files.dom());
    assert(m =~= files);
    walk::lemma_nests_within(t, depth, root);
    let g = t.dom().len();
    if depth <= g {
        walk::lemma_flat_fuel(t, depth, g, e, root, Map::empty());
    } else {
        walk::lemma_flat_fuel(t, g, depth, e, root, Map::empty());
    }
}

proof fn lemma_depth_bound(items: tree::Items, k: int) -> (d: nat)
    requires
        0 <= k <= items.len(),
    ensures
        d >= 1,
        within(items.take(k), d),
        k == items.len() ==> within(items, d),
    decreases k,
{
    if k == 0 {
        1
    } else {
        let d0 = lemma_depth_bound(items, k - 1);
        let d = if items[k - 1].0.len() > d0 {
            items[k - 1].0.len()
        } else {
            d0
        };
        assert forall|i: int| 0 <= i < k implies (#[trigger] items.take(k)[i]).0.len() <= d by {
            if i < k - 1 {
                assert(items.take(k - 1)[i] == items[i]);
            }
        }
        if k == items.len() {
            assert(items.take(k) =~= items);
        }
        d
    }
}

/// One root stands for one set of files: two sets whose trees are stored under the same hash are
/// the same.
pub proof fn law_one_root_one_map(
    t: walk::TreesView,
    a: model::Files,
    b: model::Files,
    m: Node,
    n: Node,
    root: Seq<char>,
)
    requires
        t.dom().finite(),
        a.dom().finite(),
        b.dom().finite(),
        forall|p: Seq<char>| #[trigger] a.contains_key(p) ==> canonical(p),
        forall|p: Seq<char>| #[trigger] b.contains_key(p) ==> canonical(p),
        tree::holds(m, tree::items_of(a)),
        tree::holds(n, tree::items_of(b)),
        stored(t, m, root),
        stored(t, n, root),
    ensures
        a == b,
{
    law_tree_round_trip(t, a, m, root);
    law_tree_round_trip(t, b, n, root);
}

/// Two nodes that hold the same files have the same entries, whatever the hashes of their
/// subdirectories are, and these hold the same files again.
pub proof fn law_one_map_one_listing(items: tree::Items, m: Node, n: Node, hs: Seq<Seq<char>>)
    requires
        tree::holds(m, items),
        tree::holds(n, items),
    ensures
        tree::node_entries(m, hs) == tree::node_entries(n, hs),
        m.dirs@.len() == n.dirs@.len(),
        forall|j: int|
            0 <= j < m.dirs@.len() ==> {
                &&& tree::holds((#[trigger] m.dirs@[j]).1, tree::items_under(items, m.dirs@[j].0@))
                &&& tree::holds(n.dirs@[j].1, tree::items_under(items, m.dirs@[j].0@))
            },
{
    let pair = |b: (String, String)| (b.0@, b.1@);
    let label = |d: (String, Node)| d.0@;
    let mb = m.blobs@.map_values(pair);
    let nb = n.blobs@.map_values(pair);
    let md = m.dirs@.map_values(label);
    let nd = n.dirs@.map_values(label);
    assert(mb == nb);
    assert(md == nd);
    assert(m.blobs@.len() == mb.len() && n.blobs@.len() == nb.len());
    assert(m.dirs@.len() == md.len() && n.dirs@.len() == nd.len());
    assert forall|j: int| 0 <= j < m.dirs@.len() implies (#[trigger] m.dirs@[j]).0@ == n.dirs@[j].0@ by {
        assert(md[j] == nd[j]);
    }
    let x = tree::node_entries(m, hs);
    let y = tree::node_entries(n, hs);
    assert(x.len() == y.len());
    assert forall|i: int| 0 <= i < x.len() implies x[i] == y[i] by {
        if i < mb.len() {
            assert(mb[i] == nb[i]);
        } else {
            assert(m.dirs@[i - mb.len()].0@ == n.dirs@[i - mb.len()].0@);
        }
    }
    assert(x =~= y);
}

// ---------------------------------------------------------------------------------------
// Names of trees
// ---------------------------------------------------------------------------------------
/// A way to name listings: the object store names each by the digest of its bytes.
pub type Naming = spec_fn(Seq<model::TreeEntryView>) -> Seq<char>;

/// The names of the subdirectories of a node.
pub open spec fn dir_hashes(n: Node, name: Naming) -> Seq<Seq<char>>
    decreases n, 0nat,
{
    Seq::new(
        n.dirs@.len(),
        |j: int|
            if 0 <= j < n.dirs@.len() {
                root_name(n.dirs@[j].1, name)
            } else {
                Seq::empty()
            },
    )
}

/// The listing of a node, with the names of its subdirectories in it.
pub open spec fn listing(n: Node, name: Naming) -> Seq<model::TreeEntryView>
    decreases n, 1nat,
{
    tree::by_name(tree::node_entries(n, dir_hashes(n, name)))
}

/// The name of the tree of a node: that of its listing.
pub open spec fn root_name(n: Node, name: Naming) -> Seq<char>
    decreases n, 2nat,
{
    name(listing(n, name))
}

/// `l` is the listing of the node or of one below it.
pub open spec fn lists_within(n: Node, name: Naming, l: Seq<model::TreeEntryView>) -> bool
    decreases n,
{
    l == listing(n, name) || exists|j: int|
        0 <= j < n.dirs@.len() && lists_within((#[trigger] n.dirs@[j]).1, name, l)
}

/// No two listings of the nodes have the same name.
pub open spec fn no_collision(m: Node, n: Node, name: Naming) -> bool {
    forall|x: Seq<model::TreeEntryView>, y: Seq<model::TreeEntryView>|
        (lists_within(m, name, x) || lists_within(n, name, x)) && (lists_within(m, name, y) || lists_within(
            n,
            name,
            y,
        )) && #[trigger] name(x) == #[trigger] name(y) ==> x == y
}

/// The listings of a node and of all below it are finitely many.
proof fn lemma_listings(n: Node, name: Naming) -> (s: Set<Seq<model::TreeEntryView>>)
    ensures
        s.finite(),
        forall|l: Seq<model::TreeEntryView>| #[trigger] s.contains(l) <==> lists_within(n, name, l),
    decreases n, n.dirs@.len() + 1,
{
    let below = lemma_listings_below(n, name, n.dirs@.len());
    let s = below.insert(listing(n, name));
    assert forall|l: Seq<model::TreeEntryView>| #[trigger] s.contains(l) <==> lists_within(n, name, l) by {
        assert(below.contains(l) <==> exists|j: int|
            0 <= j < n.dirs@.len() && lists_within((#[trigger] n.dirs@[j]).1, name, l));
    }
    s
}

proof fn lemma_listings_below(n: Node, name: Naming, k: nat) -> (s: Set<Seq<model::TreeEntryView>>)
    requires
        k <= n.dirs@.len(),
    ensures
        s.finite(),
        forall|l: Seq<model::TreeEntryView>|
            #[trigger] s.contains(l) <==> exists|j: int|
                0 <= j < k && lists_within((#[trigger] n.dirs@[j]).1, name, l),
    decreases n, k,
{
    if k == 0 {
        Set::empty()
    } else {
        let a = lemma_listings_below(n, name, (k - 1) as nat);
        let child = n.dirs@[k - 1].1;
        let b = lemma_listings(child, name);
        let s = a.union(b);
        assert forall|l: Seq<model::TreeEntryView>|
            #[trigger] s.contains(l) <==> exists|j: int|
                0 <= j < k && lists_within((#[trigger] n.dirs@[j]).1, name, l) by {
            if a.contains(l) {
                let j = choose|j: int| 0 <= j < k - 1 && lists_within((#[trigger] n.dirs@[j]).1, name, l);
                assert(lists_within(n.dirs@[j].1, name, l));
            }
            if b.contains(l) {
                assert(lists_within(n.dirs@[k - 1].1, name, l));
            }
            if exists|j: int| 0 <= j < k && lists_within((#[trigger] n.dirs@[j]).1, name, l) {
                let j = choose|j: int| 0 <= j < k && lists_within((#[trigger] n.dirs@[j]).1, name, l);
                if j == k - 1 {
                    assert(b.contains(l));
                } else {
                    assert(0 <= j < k - 1 && lists_within(n.dirs@[j].1, name, l));
                    assert(a.contains(l));
                }
            }
        }
        s
    }
}

/// Trees that have each listing of a node under its name have the node stored.
proof fn lemma_named_is_stored(t: walk::TreesView, n: Node, name: Naming)
    requires
        forall|l: Seq<model::TreeEntryView>|
            #[trigger] lists_within(n, name, l) ==> t.contains_key(name(l)) && t[name(l)] == l,
    ensures
        stored(t, n, root_name(n, name)),
    decreases n,
{
    let hs = dir_hashes(n, name);
    let l = listing(n, name);
    assert(lists_within(n, name, l));
    assert forall|j: int| 0 <= j < n.dirs@.len() implies stored(t, (#[trigger] n.dirs@[j]).1, hs[j]) by {
        let child = n.dirs@[j].1;
        assert forall|x: Seq<model::TreeEntryView>| #[trigger] lists_within(child, name, x) implies t.contains_key(
            name(x),
        ) && t[name(x)] == x by {
            assert(lists_within(n.dirs@[j].1, name, x));
            assert(lists_within(n, name, x));
        }
        lemma_named_is_stored(t, child, name);
        assert(hs[j] == root_name(child, name));
    }
    assert(t[root_name(n, name)] == tree::by_name(tree::node_entries(n, hs)));
}

/// The name of a tree comes from its files alone: nodes that hold the same files have the same
/// name, however listings are named.
pub proof fn law_one_map_one_root(items: tree::Items, m: Node, n: Node, name: Naming)
    requires
        tree::holds(m, items),
        tree::holds(n, items),
    ensures
        root_name(m, name) == root_name(n, name),
    decreases m,
{
    let hs = dir_hashes(m, name);
    let ks = dir_hashes(n, name);
    law_one_map_one_listing(items, m, n, hs);
    assert forall|j: int| 0 <= j < hs.len() implies hs[j] == ks[j] by {
        let a = m.dirs@[j];
        law_one_map_one_root(tree::items_under(items, a.0@), a.1, n.dirs@[j].1, name);
    }
    assert(hs =~= ks);
}

/// Two sets of files have the same root exactly where they are the same, provided that no two
/// listings of their trees have the same name, and that each path is nothing but names with
/// single slashes between them.
pub proof fn law_roots_tell_files_apart(a: model::Files, b: model::Files, m: Node, n: Node, name: Naming)
    requires
        a.dom().finite(),
        b.dom().finite(),
        forall|p: Seq<char>| #[trigger] a.contains_key(p) ==> canonical(p),
        forall|p: Seq<char>| #[trigger] b.contains_key(p) ==> canonical(p),
        tree::holds(m, tree::items_of(a)),
        tree::holds(n, tree::items_of(b)),
        no_collision(m, n, name),
    ensures
        root_name(m, name) == root_name(n, name) <==> a == b,
{
    if a == b {
        law_one_map_one_root(tree::items_of(a), m, n, name);
    }
    if root_name(m, name) == root_name(n, name) {
        let x = lemma_listings(m, name);
        let y = lemma_listings(n, name);
        let all = x.union(y);
        let names = all.map(name);
        all.lemma_map_finite(name);
        let t: walk::TreesView = Map::new(
            |h: Seq<char>| names.contains(h),
            |h: Seq<char>| choose|l: Seq<model::TreeEntryView>| #[trigger] all.contains(l) && name(l) == h,
        );
        assert(t.dom() =~= names);
        assert forall|l: Seq<model::TreeEntryView>| #[trigger] all.contains(l) implies t.contains_key(name(l))
            && t[name(l)] == l by {
            assert(names.contains(name(l)));
            let x = t[name(l)];
            assert(all.contains(x) && name(x) == name(l));
        }
        assert forall|l: Seq<model::TreeEntryView>| #[trigger] lists_within(m, name, l) implies t.contains_key(name(l))
            && t[name(l)] == l by {
            assert(all.contains(l));
        }
        assert forall|l: Seq<model::TreeEntryView>| #[trigger] lists_within(n, name, l) implies t.contains_key(name(l))
            && t[name(l)] == l by {
            assert(all.contains(l));
        }
        lemma_named_is_stored(t, m, name);
        lemma_named_is_stored(t, n, name);
        law_one_root_one_map(t, a, b, m, n, root_name(m, name));
    }
}

/// Committing keeps the paths such that trees give them back: what is staged at such paths on
/// top of files at such paths gives files at such paths.
pub proof fn law_staged_paths_stay_canonical(parent: model::Files, idx: model::IndexView)
    requires
        forall|p: Seq<char>| #[trigger] parent.contains_key(p) ==> canonical(p),
        forall|p: Seq<char>| #[trigger] idx.put.contains_key(p) ==> canonical(p),
    ensures
        forall|p: Seq<char>| #[trigger] changes::staged(parent, idx).contains_key(p) ==> canonical(p),
{
    assert forall|p: Seq<char>| #[trigger] changes::staged(parent, idx).contains_key(p) implies canonical(p) by {
        if idx.put.contains_key(p) {
            assert(canonical(p));
        } else {
            assert(parent.contains_key(p));
        }
    }
}

} // verus!

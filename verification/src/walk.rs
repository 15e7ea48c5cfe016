//! Walking trees: the files that a tree holds, and the objects that it is made of.

use vstd::prelude::*;
use vstd::string::*;

use crate::model;
use crate::model::{FileMap, Tree};
use crate::strmap::{StrMap, StrSet};
use crate::text;

verus! {

/// The trees that could be read, each under its hash.
pub type Trees = StrMap<Tree>;

/// What `Trees` says.
pub type TreesView = Map<Seq<char>, Seq<model::TreeEntryView>>;

/// Why the files of a tree cannot be told.
#[derive(Clone, Copy, Debug, PartialEq, Eq, Structural)]
pub enum TreeError {
    /// A tree is missing or is no tree.
    Unreadable,
    /// An entry is neither a file nor a directory.
    UnknownKind,
    /// More trees lie inside each other than there are, so one of them lies inside itself.
    TooDeep,
}

/// The path of `name` in the directory `prefix`.
pub open spec fn child_path(prefix: Seq<char>, name: Seq<char>) -> Seq<char> {
    if prefix.len() == 0 {
        name
    } else {
        prefix + "/"@ + name
    }
}

fn join_path(prefix: &str, name: &str) -> (r: String)
    ensures
        r@ == child_path(prefix@, name@),
{
    if prefix.is_empty() {
        return String::from_str(name);
    }
    let mut s = String::from_str(prefix);
    s.append("/");
    s.append(name);
    s
}

// ---------------------------------------------------------------------------------------
// Files
// ---------------------------------------------------------------------------------------
/// `out` with the files of the tree `hash`, which stands at `prefix`. At most `fuel` trees
/// lie inside each other.
pub open spec fn flat_tree(
    t: TreesView,
    fuel: nat,
    prefix: Seq<char>,
    hash: Seq<char>,
    out: model::Files,
) -> Result<model::Files, TreeError>
    decreases fuel, 0nat,
{
    if !t.contains_key(hash) {
        Err(TreeError::Unreadable)
    } else if fuel == 0 {
        Err(TreeError::TooDeep)
    } else {
        flat_entries(t, (fuel - 1) as nat, prefix, t[hash], out)
    }
}

/// `out` with the files of the entries `es`, one entry after the other.
pub open spec fn flat_entries(
    t: TreesView,
    fuel: nat,
    prefix: Seq<char>,
    es: Seq<model::TreeEntryView>,
    out: model::Files,
) -> Result<model::Files, TreeError>
    decreases fuel, es.len() + 1,
{
    if es.len() == 0 {
        Ok(out)
    } else {
        match flat_entries(t, fuel, prefix, es.drop_last(), out) {
            Err(e) => Err(e),
            Ok(m) => {
                let e = es.last();
                if e.kind == "blob"@ {
                    Ok(m.insert(child_path(prefix, e.name), e.hash))
                } else if e.kind == "tree"@ {
                    flat_tree(t, fuel, child_path(prefix, e.name), e.hash, m)
                } else {
                    Err(TreeError::UnknownKind)
                }
            },
        }
    }
}

/// The files of the tree `root`.
pub open spec fn flat(t: TreesView, root: Seq<char>) -> Result<model::Files, TreeError> {
    flat_tree(t, t.dom().len(), Seq::empty(), root, Map::empty())
}

fn walk(trees: &Trees, fuel: usize, prefix: &str, hash: &str, out: &mut FileMap) -> (r: Result<(), TreeError>)
    ensures
        match flat_tree(trees@, fuel as nat, prefix@, hash@, old(out)@) {
            Ok(m) => r is Ok && final(out)@ == m,
            Err(e) => r == Err::<(), TreeError>(e),
        },
    decreases fuel,
{
    let tree = match trees.get(hash) {
        Some(t) => t,
        None => {
            return Err(TreeError::Unreadable);
        },
    };
    if fuel == 0 {
        return Err(TreeError::TooDeep);
    }
    let ghost es = tree@;
    let ghost start = out@;
    let ghost f = (fuel - 1) as nat;
    let ghost goal = flat_entries(trees@, f, prefix@, es, start);
    let mut i: usize = 0;
    assert(es.take(es.len() as int) =~= es);
    while i < tree.entries.len()
        invariant
            i <= tree.entries@.len(),
            fuel > 0,
            f == fuel - 1,
            es == tree@,
            start == old(out)@,
            goal == flat_entries(trees@, f, prefix@, es, start),
            goal == flat_tree(trees@, fuel as nat, prefix@, hash@, start),
            flat_entries(trees@, f, prefix@, es.take(i as int), start) == Ok::<model::Files, TreeError>(out@),
        decreases tree.entries@.len() - i,
    {
        let e = &tree.entries[i];
        proof {
            assert(es.take(i + 1).drop_last() =~= es.take(i as int));
            assert(es.take(i + 1).last() == e@);
        }
        let path = join_path(prefix, e.name.as_str());
        if text::str_eq(e.kind.as_str(), "blob") {
            out.insert(path, e.hash.clone());
        } else if text::str_eq(e.kind.as_str(), "tree") {
            match walk(trees, fuel - 1, path.as_str(), e.hash.as_str(), out) {
                Ok(()) => {},
                Err(err) => {
                    proof {
                        lemma_flat_error(trees@, f, prefix@, es, start, i + 1);
                    }
                    return Err(err);
                },
            }
        } else {
            proof {
                lemma_flat_error(trees@, f, prefix@, es, start, i + 1);
            }
            return Err(TreeError::UnknownKind);
        }
        i = i + 1;
    }
    Ok(())
}

/// An error among the first entries is the error of them all.
proof fn lemma_flat_error(
    t: TreesView,
    f: nat,
    prefix: Seq<char>,
    es: Seq<model::TreeEntryView>,
    out: model::Files,
    k: int,
)
    requires
        0 <= k <= es.len(),
        flat_entries(t, f, prefix, es.take(k), out) is Err,
    ensures
        flat_entries(t, f, prefix, es, out) == flat_entries(t, f, prefix, es.take(k), out),
    decreases es.len() - k,
{
    if k < es.len() {
        assert(es.take(k + 1).drop_last() =~= es.take(k));
        lemma_flat_error(t, f, prefix, es, out, k + 1);
    } else {
        assert(es.take(k) =~= es);
    }
}

/// The files of the tree `root`.
pub fn flatten_tree(trees: &Trees, root: &str) -> (r: Result<FileMap, TreeError>)
    ensures
        match flat(trees@, root@) {
            Ok(m) => r is Ok && r->Ok_0@ == m,
            Err(e) => r is Err && r->Err_0 == e,
        },
{
    let fuel = trees.len();
    let mut out: FileMap = StrMap::new();
    proof {
        reveal_strlit("");
        assert(""@ =~= Seq::<char>::empty());
    }
    match walk(trees, fuel, "", root, &mut out) {
        Ok(()) => Ok(out),
        Err(e) => Err(e),
    }
}

// ---------------------------------------------------------------------------------------
// Objects
// ---------------------------------------------------------------------------------------
/// `keep` with the objects of the tree `hash`: itself, what its entries name, and the objects
/// of the trees among these. The walk ends where a tree cannot be read; whether it got to
/// the end is told beside.
pub open spec fn gather_tree(t: TreesView, fuel: nat, hash: Seq<char>, keep: Set<Seq<char>>) -> (
    Set<Seq<char>>,
    bool,
)
    decreases fuel, 0nat,
{
    if !t.contains_key(hash) || fuel == 0 {
        (keep.insert(hash), false)
    } else {
        gather_entries(t, (fuel - 1) as nat, t[hash], keep.insert(hash))
    }
}

/// `keep` with the objects of the entries `es`, one entry after the other.
pub open spec fn gather_entries(
    t: TreesView,
    fuel: nat,
    es: Seq<model::TreeEntryView>,
    keep: Set<Seq<char>>,
) -> (Set<Seq<char>>, bool)
    decreases fuel, es.len() + 1,
{
    if es.len() == 0 {
        (keep, true)
    } else {
        let front = gather_entries(t, fuel, es.drop_last(), keep);
        if !front.1 {
            front
        } else if es.last().kind == "tree"@ {
            gather_tree(t, fuel, es.last().hash, front.0.insert(es.last().hash))
        } else {
            (front.0.insert(es.last().hash), true)
        }
    }
}

proof fn lemma_gather_stops(t: TreesView, f: nat, es: Seq<model::TreeEntryView>, keep: Set<Seq<char>>, k: int)
    requires
        0 <= k <= es.len(),
        !gather_entries(t, f, es.take(k), keep).1,
    ensures
        gather_entries(t, f, es, keep) == gather_entries(t, f, es.take(k), keep),
    decreases es.len() - k,
{
    if k < es.len() {
        assert(es.take(k + 1).drop_last() =~= es.take(k));
        lemma_gather_stops(t, f, es, keep, k + 1);
    } else {
        assert(es.take(k) =~= es);
    }
}

fn gather(trees: &Trees, fuel: usize, hash: &str, keep: &mut StrSet) -> (r: bool)
    ensures
        (final(keep)@, r) == gather_tree(trees@, fuel as nat, hash@, old(keep)@),
    decreases fuel,
{
    keep.insert(String::from_str(hash));
    let tree = match trees.get(hash) {
        Some(t) => t,
        None => {
            return false;
        },
    };
    if fuel == 0 {
        return false;
    }
    let ghost es = tree@;
    let ghost start = keep@;
    let ghost f = (fuel - 1) as nat;
    let mut i: usize = 0;
    assert(es.take(es.len() as int) =~= es);
    while i < tree.entries.len()
        invariant
            i <= tree.entries@.len(),
            fuel > 0,
            f == fuel - 1,
            es == tree@,
            gather_tree(trees@, fuel as nat, hash@, old(keep)@) == gather_entries(trees@, f, es, start),
            gather_entries(trees@, f, es.take(i as int), start) == (keep@, true),
        decreases tree.entries@.len() - i,
    {
        let e = &tree.entries[i];
        proof {
            assert(es.take(i + 1).drop_last() =~= es.take(i as int));
            assert(es.take(i + 1).last() == e@);
        }
        keep.insert(e.hash.clone());
        if text::str_eq(e.kind.as_str(), "tree") {
            if !gather(trees, fuel - 1, e.hash.as_str(), keep) {
                proof {
                    lemma_gather_stops(trees@, f, es, start, i + 1);
                }
                return false;
            }
        }
        i = i + 1;
    }
    true
}

/// `keep` with the objects of the tree `root`, as far as they can be read.
pub open spec fn gathered(t: TreesView, root: Seq<char>, keep: Set<Seq<char>>) -> Set<Seq<char>> {
    gather_tree(t, t.dom().len(), root, keep).0
}

/// Adds the objects of the tree `root` to `keep`, as far as they can be read.
pub fn walk_tree_collect(trees: &Trees, root: &str, keep: &mut StrSet)
    ensures
        final(keep)@ == gathered(trees@, root@, old(keep)@),
{
    let fuel = trees.len();
    let _done = gather(trees, fuel, root, keep);
}

// ---------------------------------------------------------------------------------------
// How deep trees lie inside each other
// ---------------------------------------------------------------------------------------
/// At most `fuel` readable trees lie inside each other from `hash` on.
pub open spec fn nests(t: TreesView, fuel: nat, hash: Seq<char>) -> bool
    decreases fuel,
{
    t.contains_key(hash) ==> fuel > 0 && forall|i: int|
        0 <= i < t[hash].len() && (#[trigger] t[hash][i]).kind == "tree"@ ==> nests(
            t,
            (fuel - 1) as nat,
            t[hash][i].hash,
        )
}

proof fn lemma_nests_more(t: TreesView, f: nat, g: nat, hash: Seq<char>)
    requires
        nests(t, f, hash),
        f <= g,
    ensures
        nests(t, g, hash),
    decreases f,
{
    if t.contains_key(hash) {
        assert forall|i: int| 0 <= i < t[hash].len() && (#[trigger] t[hash][i]).kind == "tree"@ implies nests(t, (g - 1) as nat, t[hash][i].hash) by {
            lemma_nests_more(t, (f - 1) as nat, (g - 1) as nat, t[hash][i].hash);
        }
    }
}

/// Readable trees whose nesting ends, and no more than `f` deep.
spec fn shallow(t: TreesView, f: nat, s: Set<Seq<char>>) -> bool {
    forall|h: Seq<char>| #[trigger] s.contains(h) ==> t.contains_key(h) && nests(t, f, h)
}

/// Where the nesting from `hash` on ends after exactly `r` trees, there are `r` trees.
proof fn lemma_rank_set(t: TreesView, r: nat, hash: Seq<char>) -> (s: Set<Seq<char>>)
    requires
        r > 0,
        nests(t, r, hash),
        !nests(t, (r - 1) as nat, hash),
    ensures
        s.finite(),
        s.len() == r,
        shallow(t, r, s),
    decreases r,
{
    if r == 1 {
        let s = Set::<Seq<char>>::empty().insert(hash);
        assert(shallow(t, r, s));
        s
    } else {
        let p = (r - 1) as nat;
        assert(t.contains_key(hash));
        let i = choose|i: int|
            0 <= i < t[hash].len() && (#[trigger] t[hash][i]).kind == "tree"@ && !nests(
                t,
                (p - 1) as nat,
                t[hash][i].hash,
            );
        let c = t[hash][i].hash;
        assert(nests(t, p, c));
        let s = lemma_rank_set(t, p, c);
        assert(!s.contains(hash));
        let s2 = s.insert(hash);
        assert forall|h: Seq<char>| #[trigger] s2.contains(h) implies t.contains_key(h) && nests(t, r, h) by {
            if h != hash {
                assert(s.contains(h));
                lemma_nests_more(t, p, r, h);
            }
        }
        s2
    }
}

/// Nesting that ends at all ends before it is deeper than there are trees.
pub proof fn lemma_nests_within(t: TreesView, f: nat, hash: Seq<char>)
    requires
        t.dom().finite(),
        nests(t, f, hash),
    ensures
        nests(t, t.dom().len(), hash),
    decreases f,
{
    if f <= t.dom().len() {
        lemma_nests_more(t, f, t.dom().len(), hash);
    } else if nests(t, (f - 1) as nat, hash) {
        lemma_nests_within(t, (f - 1) as nat, hash);
    } else {
        let s = lemma_rank_set(t, f, hash);
        assert(s.subset_of(t.dom()));
        vstd::set_lib::lemma_len_subset(s, t.dom());
    }
}

/// Once the fuel covers the nesting, it does not matter how much there is.
pub proof fn lemma_flat_fuel(t: TreesView, f: nat, g: nat, prefix: Seq<char>, hash: Seq<char>, out: model::Files)
    requires
        nests(t, f, hash),
        f <= g,
    ensures
        flat_tree(t, f, prefix, hash, out) == flat_tree(t, g, prefix, hash, out),
    decreases f, 0nat,
{
    if t.contains_key(hash) {
        lemma_flat_entries_fuel(t, (f - 1) as nat, (g - 1) as nat, prefix, hash, t[hash].len() as int, out);
        assert(t[hash].take(t[hash].len() as int) =~= t[hash]);
    }
}

proof fn lemma_flat_entries_fuel(
    t: TreesView,
    f: nat,
    g: nat,
    prefix: Seq<char>,
    hash: Seq<char>,
    k: int,
    out: model::Files,
)
    requires
        t.contains_key(hash),
        nests(t, f + 1, hash),
        f <= g,
        0 <= k <= t[hash].len(),
    ensures
        flat_entries(t, f, prefix, t[hash].take(k), out) == flat_entries(t, g, prefix, t[hash].take(k), out),
    decreases f, k + 1,
{
    let es = t[hash];
    if k > 0 {
        assert(es.take(k).drop_last() =~= es.take(k - 1));
        assert(es.take(k).last() == es[k - 1]);
        lemma_flat_entries_fuel(t, f, g, prefix, hash, k - 1, out);
        let e = es[k - 1];
        if e.kind == "tree"@ && e.kind != "blob"@ {
            match flat_entries(t, f, prefix, es.take(k - 1), out) {
                Ok(m) => {
                    assert(nests(t, f, e.hash));
                    lemma_flat_fuel(t, f, g, child_path(prefix, e.name), e.hash, m);
                },
                Err(_) => {},
            }
        }
    }
}

/// The two kinds of entries are told apart by their names.
pub proof fn lemma_kinds_differ()
    ensures
        "blob"@ != "tree"@,
{
    reveal_strlit("blob");
    reveal_strlit("tree");
    assert("blob"@[0] != "tree"@[0]);
}

/// Gathering only adds.
proof fn lemma_gather_grows(t: TreesView, f: nat, hash: Seq<char>, keep: Set<Seq<char>>)
    ensures
        keep.insert(hash).subset_of(gather_tree(t, f, hash, keep).0),
    decreases f, 0nat,
{
    if t.contains_key(hash) && f > 0 {
        lemma_gather_entries_grow(t, (f - 1) as nat, t[hash], keep.insert(hash));
    }
}

proof fn lemma_gather_entries_grow(t: TreesView, f: nat, es: Seq<model::TreeEntryView>, keep: Set<Seq<char>>)
    ensures
        keep.subset_of(gather_entries(t, f, es, keep).0),
        forall|i: int|
            0 <= i < es.len() && gather_entries(t, f, es, keep).1 ==> gather_entries(
                t,
                f,
                es,
                keep,
            ).0.contains((#[trigger] es[i]).hash),
    decreases f, es.len() + 1,
{
    if es.len() > 0 {
        let front = es.drop_last();
        let g = gather_entries(t, f, front, keep);
        lemma_gather_entries_grow(t, f, front, keep);
        if g.1 && es.last().kind == "tree"@ {
            lemma_gather_grows(t, f, es.last().hash, g.0.insert(es.last().hash));
        }
        assert forall|i: int| 0 <= i < es.len() && gather_entries(t, f, es, keep).1 implies gather_entries(t, f, es, keep).0.contains((#[trigger] es[i]).hash) by {
            if i < es.len() - 1 {
                assert(front[i] == es[i]);
            }
        }
    }
}

/// Gathering keeps what was there before, and what it was asked to keep.
pub proof fn lemma_gathered_grows(t: TreesView, root: Seq<char>, keep: Set<Seq<char>>)
    ensures
        keep.subset_of(gathered(t, root, keep)),
        gathered(t, root, keep).contains(root),
{
    lemma_gather_grows(t, t.dom().len(), root, keep);
}

/// Where the files of a tree can be told, all its objects are gathered.
proof fn lemma_flat_gathers(t: TreesView, f: nat, prefix: Seq<char>, hash: Seq<char>, out: model::Files, keep: Set<Seq<char>>)
    requires
        flat_tree(t, f, prefix, hash, out) is Ok,
    ensures
        gather_tree(t, f, hash, keep).1,
    decreases f, 0nat,
{
    lemma_flat_entries_gather(t, (f - 1) as nat, prefix, t[hash], out, keep.insert(hash));
}

proof fn lemma_flat_entries_gather(
    t: TreesView,
    f: nat,
    prefix: Seq<char>,
    es: Seq<model::TreeEntryView>,
    out: model::Files,
    keep: Set<Seq<char>>,
)
    requires
        flat_entries(t, f, prefix, es, out) is Ok,
    ensures
        gather_entries(t, f, es, keep).1,
    decreases f, es.len() + 1,
{
    if es.len() > 0 {
        lemma_flat_entries_gather(t, f, prefix, es.drop_last(), out, keep);
        lemma_kinds_differ();
        let m = flat_entries(t, f, prefix, es.drop_last(), out)->Ok_0;
        let e = es.last();
        if e.kind == "tree"@ {
            let k = gather_entries(t, f, es.drop_last(), keep).0;
            lemma_flat_gathers(t, f, child_path(prefix, e.name), e.hash, m, k.insert(e.hash));
        }
    }
}

/// The files of a tree are finitely many.
pub proof fn lemma_flat_finite(t: TreesView, f: nat, prefix: Seq<char>, hash: Seq<char>, out: model::Files)
    requires
        out.dom().finite(),
        flat_tree(t, f, prefix, hash, out) is Ok,
    ensures
        flat_tree(t, f, prefix, hash, out)->Ok_0.dom().finite(),
    decreases f, 0nat,
{
    lemma_flat_entries_finite(t, (f - 1) as nat, prefix, t[hash], out);
}

proof fn lemma_flat_entries_finite(
    t: TreesView,
    f: nat,
    prefix: Seq<char>,
    es: Seq<model::TreeEntryView>,
    out: model::Files,
)
    requires
        out.dom().finite(),
        flat_entries(t, f, prefix, es, out) is Ok,
    ensures
        flat_entries(t, f, prefix, es, out)->Ok_0.dom().finite(),
    decreases f, es.len() + 1,
{
    if es.len() > 0 {
        lemma_flat_entries_finite(t, f, prefix, es.drop_last(), out);
        let m = flat_entries(t, f, prefix, es.drop_last(), out)->Ok_0;
        let e = es.last();
        if e.kind != "blob"@ {
            lemma_flat_finite(t, f, child_path(prefix, e.name), e.hash, m);
        }
    }
}

/// `u` has what `t` has, as far as `keep` goes.
pub open spec fn agrees_on(t: TreesView, u: TreesView, keep: Set<Seq<char>>) -> bool {
    forall|h: Seq<char>|
        #[trigger] keep.contains(h) && t.contains_key(h) ==> u.contains_key(h) && u[h] == t[h]
}

proof fn lemma_flat_agrees(
    t: TreesView,
    u: TreesView,
    f: nat,
    prefix: Seq<char>,
    hash: Seq<char>,
    out: model::Files,
    keep: Set<Seq<char>>,
    all: Set<Seq<char>>,
)
    requires
        gather_tree(t, f, hash, keep).1,
        gather_tree(t, f, hash, keep).0.subset_of(all),
        agrees_on(t, u, all),
    ensures
        flat_tree(t, f, prefix, hash, out) == flat_tree(u, f, prefix, hash, out),
        nests(u, f, hash),
    decreases f, 0nat,
{
    lemma_gather_grows(t, f, hash, keep);
    assert(all.contains(hash));
    lemma_flat_entries_agree(t, u, (f - 1) as nat, prefix, t[hash], out, keep.insert(hash), all);
}

proof fn lemma_flat_entries_agree(
    t: TreesView,
    u: TreesView,
    f: nat,
    prefix: Seq<char>,
    es: Seq<model::TreeEntryView>,
    out: model::Files,
    keep: Set<Seq<char>>,
    all: Set<Seq<char>>,
)
    requires
        gather_entries(t, f, es, keep).1,
        gather_entries(t, f, es, keep).0.subset_of(all),
        agrees_on(t, u, all),
    ensures
        flat_entries(t, f, prefix, es, out) == flat_entries(u, f, prefix, es, out),
        forall|i: int|
            0 <= i < es.len() && (#[trigger] es[i]).kind == "tree"@ ==> nests(u, f, es[i].hash),
    decreases f, es.len() + 1,
{
    if es.len() > 0 {
        let front = es.drop_last();
        let e = es.last();
        let g = gather_entries(t, f, front, keep);
        lemma_gather_entries_grow(t, f, front, keep);
        if e.kind == "tree"@ {
            lemma_gather_grows(t, f, e.hash, g.0.insert(e.hash));
        }
        lemma_flat_entries_agree(t, u, f, prefix, front, out, keep, all);
        if e.kind == "tree"@ {
            match flat_entries(t, f, prefix, front, out) {
                Ok(m) => {
                    lemma_flat_agrees(t, u, f, child_path(prefix, e.name), e.hash, m, g.0.insert(e.hash), all);
                },
                Err(_) => {
                    lemma_flat_agrees(t, u, f, child_path(prefix, e.name), e.hash, out, g.0.insert(e.hash), all);
                },
            }
        }
        assert forall|i: int| 0 <= i < es.len() && (#[trigger] es[i]).kind == "tree"@ implies nests(u, f, es[i].hash) by {
            if i < front.len() {
                assert(front[i] == es[i]);
            }
        }
    }
}

/// Keeping the gathered objects of a tree keeps its files: whatever else is lost, the tree
/// says the same.
pub proof fn law_gathered_trees_suffice(t: TreesView, u: TreesView, root: Seq<char>, keep: Set<Seq<char>>, all: Set<Seq<char>>)
    requires
        t.dom().finite(),
        u.dom().finite(),
        flat(t, root) is Ok,
        gathered(t, root, keep).subset_of(all),
        agrees_on(t, u, all),
    ensures
        flat(u, root) == flat(t, root),
{
    let f = t.dom().len();
    lemma_flat_gathers(t, f, Seq::empty(), root, Map::empty(), keep);
    lemma_flat_agrees(t, u, f, Seq::empty(), root, Map::empty(), keep, all);
    lemma_nests_within(u, f, root);
    let g = u.dom().len();
    if f <= g {
        lemma_flat_fuel(u, f, g, Seq::empty(), root, Map::empty());
    } else {
        lemma_flat_fuel(u, g, f, Seq::empty(), root, Map::empty());
    }
}

/// Trees that are part of others do not lie deeper inside each other.
proof fn lemma_nests_part(t: TreesView, u: TreesView, f: nat, hash: Seq<char>)
    requires
        nests(t, f, hash),
        forall|h: Seq<char>| #[trigger] u.contains_key(h) ==> t.contains_key(h) && t[h] == u[h],
    ensures
        nests(u, f, hash),
    decreases f,
{
    if u.contains_key(hash) {
        assert forall|i: int| 0 <= i < u[hash].len() && (#[trigger] u[hash][i]).kind == "tree"@ implies nests(u, (f - 1) as nat, u[hash][i].hash) by {
            assert(nests(t, (f - 1) as nat, t[hash][i].hash));
            lemma_nests_part(t, u, (f - 1) as nat, u[hash][i].hash);
        }
    }
}

/// Once the fuel covers the nesting, it does not matter to gathering how much there is.
proof fn lemma_gather_fuel(t: TreesView, f: nat, g: nat, hash: Seq<char>, keep: Set<Seq<char>>)
    requires
        nests(t, f, hash),
        f <= g,
    ensures
        gather_tree(t, f, hash, keep) == gather_tree(t, g, hash, keep),
    decreases f, 0nat,
{
    if t.contains_key(hash) {
        lemma_gather_entries_fuel(t, (f - 1) as nat, (g - 1) as nat, hash, t[hash].len() as int, keep.insert(hash));
        assert(t[hash].take(t[hash].len() as int) =~= t[hash]);
    }
}

proof fn lemma_gather_entries_fuel(t: TreesView, f: nat, g: nat, hash: Seq<char>, k: int, keep: Set<Seq<char>>)
    requires
        t.contains_key(hash),
        nests(t, f + 1, hash),
        f <= g,
        0 <= k <= t[hash].len(),
    ensures
        gather_entries(t, f, t[hash].take(k), keep) == gather_entries(t, g, t[hash].take(k), keep),
    decreases f, k + 1,
{
    let es = t[hash];
    if k > 0 {
        assert(es.take(k).drop_last() =~= es.take(k - 1));
        assert(es.take(k).last() == es[k - 1]);
        lemma_gather_entries_fuel(t, f, g, hash, k - 1, keep);
        let e = es[k - 1];
        let front = gather_entries(t, f, es.take(k - 1), keep);
        if e.kind == "tree"@ && front.1 {
            assert(nests(t, f, e.hash));
            lemma_gather_fuel(t, f, g, e.hash, front.0.insert(e.hash));
        }
    }
}

/// Gathering from part of the trees gathers the same, where that part holds all that is gathered.
proof fn lemma_gather_part(
    t: TreesView,
    u: TreesView,
    f: nat,
    hash: Seq<char>,
    keep: Set<Seq<char>>,
    all: Set<Seq<char>>,
)
    requires
        gather_tree(t, f, hash, keep).0.subset_of(all),
        agrees_on(t, u, all),
        forall|h: Seq<char>| #[trigger] u.contains_key(h) ==> t.contains_key(h) && t[h] == u[h],
    ensures
        gather_tree(u, f, hash, keep) == gather_tree(t, f, hash, keep),
    decreases f, 0nat,
{
    lemma_gather_grows(t, f, hash, keep);
    assert(keep.insert(hash).contains(hash));
    assert(all.contains(hash));
    if t.contains_key(hash) && f > 0 {
        lemma_gather_entries_part(t, u, (f - 1) as nat, t[hash], keep.insert(hash), all);
    }
}

proof fn lemma_gather_entries_part(
    t: TreesView,
    u: TreesView,
    f: nat,
    es: Seq<model::TreeEntryView>,
    keep: Set<Seq<char>>,
    all: Set<Seq<char>>,
)
    requires
        gather_entries(t, f, es, keep).0.subset_of(all),
        agrees_on(t, u, all),
        forall|h: Seq<char>| #[trigger] u.contains_key(h) ==> t.contains_key(h) && t[h] == u[h],
    ensures
        gather_entries(u, f, es, keep) == gather_entries(t, f, es, keep),
    decreases f, es.len() + 1,
{
    if es.len() > 0 {
        let front = es.drop_last();
        let e = es.last();
        let g = gather_entries(t, f, front, keep);
        if g.1 && e.kind == "tree"@ {
            lemma_gather_grows(t, f, e.hash, g.0.insert(e.hash));
        }
        assert(g.0.subset_of(all));
        lemma_gather_entries_part(t, u, f, front, keep, all);
        if g.1 && e.kind == "tree"@ {
            lemma_gather_part(t, u, f, e.hash, g.0.insert(e.hash), all);
        }
    }
}

/// Once only the gathered objects of a tree are left, or more, gathering gives the same again,
/// provided that no tree lies inside itself.
pub proof fn law_gathering_again(t: TreesView, root: Seq<char>, keep: Set<Seq<char>>, all: Set<Seq<char>>)
    requires
        t.dom().finite(),
        nests(t, t.dom().len(), root),
        gathered(t, root, keep).subset_of(all),
    ensures
        gathered(t.restrict(all), root, keep) == gathered(t, root, keep),
{
    let u = t.restrict(all);
    assert(u.dom() =~= t.dom().intersect(all));
    vstd::set_lib::lemma_len_subset(u.dom(), t.dom());
    let f = t.dom().len();
    lemma_gather_part(t, u, f, root, keep, all);
    lemma_nests_part(t, u, f, root);
    lemma_nests_within(u, f, root);
    lemma_gather_fuel(u, u.dom().len(), f, root, keep);
}

/// The path of an entry is the path of its directory, a slash and its name, and at the top its
/// name alone.
pub proof fn law_paths_are_put_together(prefix: Seq<char>, name: Seq<char>)
    ensures
        child_path(Seq::empty(), name) == name,
        prefix.len() > 0 ==> child_path(prefix, name) == prefix + seq!['/'] + name,
{
    reveal_strlit("/");
    assert("/"@ =~= seq!['/']);
}

/// A tree with one entry holds the file of that entry, or the files of that tree below the name
/// of the entry; one that cannot be read, or holds an entry of another kind, holds none.
pub proof fn law_files_of_one_entry(
    t: TreesView,
    fuel: nat,
    prefix: Seq<char>,
    hash: Seq<char>,
    e: model::TreeEntryView,
    out: model::Files,
)
    ensures
        !t.contains_key(hash) ==> flat_tree(t, fuel, prefix, hash, out) == Err::<model::Files, TreeError>(
            TreeError::Unreadable,
        ),
        t.contains_key(hash) && fuel > 0 && t[hash].len() == 0 ==> flat_tree(t, fuel, prefix, hash, out) == Ok::<
            model::Files,
            TreeError,
        >(out),
        e.kind == "blob"@ ==> flat_entries(t, fuel, prefix, seq![e], out) == Ok::<model::Files, TreeError>(
            out.insert(child_path(prefix, e.name), e.hash),
        ),
        e.kind == "tree"@ ==> flat_entries(t, fuel, prefix, seq![e], out) == flat_tree(
            t,
            fuel,
            child_path(prefix, e.name),
            e.hash,
            out,
        ),
        e.kind != "blob"@ && e.kind != "tree"@ ==> flat_entries(t, fuel, prefix, seq![e], out) == Err::<
            model::Files,
            TreeError,
        >(TreeError::UnknownKind),
{
    lemma_kinds_differ();
    let s = seq![e];
    assert(s.drop_last() =~= Seq::empty());
    assert(flat_entries(t, fuel, prefix, s.drop_last(), out) == Ok::<model::Files, TreeError>(out));
}

/// The entries of a tree are read one after the other, the files of the later ones on top of
/// those of the earlier.
pub proof fn law_entries_are_read_in_order(
    t: TreesView,
    fuel: nat,
    prefix: Seq<char>,
    a: Seq<model::TreeEntryView>,
    b: Seq<model::TreeEntryView>,
    out: model::Files,
)
    ensures
        flat_entries(t, fuel, prefix, a, out) is Ok ==> flat_entries(t, fuel, prefix, a + b, out) == flat_entries(
            t,
            fuel,
            prefix,
            b,
            flat_entries(t, fuel, prefix, a, out)->Ok_0,
        ),
        flat_entries(t, fuel, prefix, a, out) is Err ==> flat_entries(t, fuel, prefix, a + b, out) == flat_entries(
            t,
            fuel,
            prefix,
            a,
            out,
        ),
    decreases b.len(),
{
    if b.len() == 0 {
        assert(a + b =~= a);
    } else {
        law_entries_are_read_in_order(t, fuel, prefix, a, b.drop_last(), out);
        assert((a + b).drop_last() =~= a + b.drop_last());
    }
}

/// Gathering adds to what was kept, and what it adds does not depend on that.
pub proof fn law_gathering_adds(t: TreesView, root: Seq<char>, keep: Set<Seq<char>>)
    ensures
        gathered(t, root, keep) == keep.union(gathered(t, root, Set::empty())),
{
    lemma_gather_adds(t, t.dom().len(), root, keep);
    assert(gathered(t, root, keep) =~= keep.union(gathered(t, root, Set::empty())));
}

proof fn lemma_gather_adds(t: TreesView, f: nat, hash: Seq<char>, keep: Set<Seq<char>>)
    ensures
        gather_tree(t, f, hash, keep).0 =~= keep.union(gather_tree(t, f, hash, Set::empty()).0),
        gather_tree(t, f, hash, keep).1 == gather_tree(t, f, hash, Set::empty()).1,
    decreases f, 0nat,
{
    let none = Set::<Seq<char>>::empty();
    if t.contains_key(hash) && f > 0 {
        lemma_gather_entries_add(t, (f - 1) as nat, t[hash], keep.insert(hash));
        lemma_gather_entries_add(t, (f - 1) as nat, t[hash], none.insert(hash));
    }
}

proof fn lemma_gather_entries_add(t: TreesView, f: nat, es: Seq<model::TreeEntryView>, keep: Set<Seq<char>>)
    ensures
        gather_entries(t, f, es, keep).0 =~= keep.union(gather_entries(t, f, es, Set::empty()).0),
        gather_entries(t, f, es, keep).1 == gather_entries(t, f, es, Set::empty()).1,
    decreases f, es.len() + 1,
{
    let none = Set::<Seq<char>>::empty();
    if es.len() > 0 {
        let front = es.drop_last();
        let e = es.last();
        lemma_gather_entries_add(t, f, front, keep);
        let a = gather_entries(t, f, front, keep);
        let b = gather_entries(t, f, front, none);
        if a.1 && e.kind == "tree"@ {
            lemma_gather_adds(t, f, e.hash, a.0.insert(e.hash));
            lemma_gather_adds(t, f, e.hash, b.0.insert(e.hash));
        }
    }
}

/// Where the files of a tree can be told, its gathered objects are the tree itself, what each of
/// its entries names, and all objects of the trees among these.
pub proof fn law_gathered_holds_each_entry(t: TreesView, f: nat, hash: Seq<char>, i: int)
    requires
        f > 0,
        t.contains_key(hash),
        flat_tree(t, f, Seq::empty(), hash, Map::empty()) is Ok,
        0 <= i < t[hash].len(),
    ensures
        ({
            let all = gather_tree(t, f, hash, Set::empty()).0;
            let e = t[hash][i];
            &&& all.contains(hash)
            &&& all.contains(e.hash)
            &&& e.kind == "tree"@ ==> gather_tree(t, (f - 1) as nat, e.hash, Set::empty()).0.subset_of(all)
        }),
{
    let none = Set::<Seq<char>>::empty();
    lemma_gather_grows(t, f, hash, none);
    lemma_flat_gathers(t, f, Seq::empty(), hash, Map::empty(), none);
    lemma_gather_entries_grow(t, (f - 1) as nat, t[hash], none.insert(hash));
    if t[hash][i].kind == "tree"@ {
        lemma_gathers_subtree(t, (f - 1) as nat, t[hash], none.insert(hash), i);
    }
}

proof fn lemma_gathers_subtree(t: TreesView, f: nat, es: Seq<model::TreeEntryView>, keep: Set<Seq<char>>, i: int)
    requires
        gather_entries(t, f, es, keep).1,
        0 <= i < es.len(),
        es[i].kind == "tree"@,
    ensures
        gather_tree(t, f, es[i].hash, Set::empty()).0.subset_of(gather_entries(t, f, es, keep).0),
    decreases es.len(),
{
    let front = es.drop_last();
    let g = gather_entries(t, f, front, keep);
    if i == es.len() - 1 {
        lemma_gather_adds(t, f, es.last().hash, g.0.insert(es.last().hash));
    } else {
        assert(front[i] == es[i]);
        lemma_gathers_subtree(t, f, front, keep, i);
        if es.last().kind == "tree"@ {
            lemma_gather_grows(t, f, es.last().hash, g.0.insert(es.last().hash));
        }
    }
}

/// Nothing is gathered that does not hang on the tree: any set that holds the tree, with each tree
/// that hangs on it what its entries name, and what was kept before, holds all that is gathered.
/// `inside` are the trees that hang on it.
pub proof fn law_gathered_is_the_least(
    t: TreesView,
    root: Seq<char>,
    keep: Set<Seq<char>>,
    inside: Set<Seq<char>>,
    all: Set<Seq<char>>,
)
    requires
        inside.contains(root),
        inside.subset_of(all),
        keep.subset_of(all),
        forall|h: Seq<char>, i: int|
            inside.contains(h) && t.contains_key(h) && 0 <= i < t[h].len() ==> all.contains((#[trigger] t[h][i]).hash)
                && (t[h][i].kind == "tree"@ ==> inside.contains(t[h][i].hash)),
    ensures
        gathered(t, root, keep).subset_of(all),
{
    lemma_gather_least(t, t.dom().len(), root, keep, inside, all);
}

proof fn lemma_gather_least(
    t: TreesView,
    f: nat,
    hash: Seq<char>,
    keep: Set<Seq<char>>,
    inside: Set<Seq<char>>,
    all: Set<Seq<char>>,
)
    requires
        inside.contains(hash),
        inside.subset_of(all),
        keep.subset_of(all),
        forall|h: Seq<char>, i: int|
            inside.contains(h) && t.contains_key(h) && 0 <= i < t[h].len() ==> all.contains((#[trigger] t[h][i]).hash)
                && (t[h][i].kind == "tree"@ ==> inside.contains(t[h][i].hash)),
    ensures
        gather_tree(t, f, hash, keep).0.subset_of(all),
    decreases f, 0nat,
{
    assert(all.contains(hash));
    if t.contains_key(hash) && f > 0 {
        lemma_gather_entries_least(t, (f - 1) as nat, hash, t[hash].len() as int, keep.insert(hash), inside, all);
        assert(t[hash].take(t[hash].len() as int) =~= t[hash]);
    }
}

proof fn lemma_gather_entries_least(
    t: TreesView,
    f: nat,
    hash: Seq<char>,
    k: int,
    keep: Set<Seq<char>>,
    inside: Set<Seq<char>>,
    all: Set<Seq<char>>,
)
    requires
        t.contains_key(hash),
        inside.contains(hash),
        0 <= k <= t[hash].len(),
        inside.subset_of(all),
        keep.subset_of(all),
        forall|h: Seq<char>, i: int|
            inside.contains(h) && t.contains_key(h) && 0 <= i < t[h].len() ==> all.contains((#[trigger] t[h][i]).hash)
                && (t[h][i].kind == "tree"@ ==> inside.contains(t[h][i].hash)),
    ensures
        gather_entries(t, f, t[hash].take(k), keep).0.subset_of(all),
    decreases f, k + 1,
{
    let es = t[hash];
    if k > 0 {
        assert(es.take(k).drop_last() =~= es.take(k - 1));
        assert(es.take(k).last() == es[k - 1]);
        lemma_gather_entries_least(t, f, hash, k - 1, keep, inside, all);
        let e = t[hash][k - 1];
        let g = gather_entries(t, f, es.take(k - 1), keep);
        assert(all.contains(e.hash));
        if g.1 && e.kind == "tree"@ {
            lemma_gather_least(t, f, e.hash, g.0.insert(e.hash), inside, all);
        }
    }
}

} // verus!

//! Trees: how the files of a commit become nested directory listings.

use vstd::prelude::*;
use vstd::string::*;

use crate::model;
use crate::model::{FileMap, Tree, TreeEntry};
use crate::strmap;
use crate::strmap::StrSet;
use crate::text;
use crate::text::split_path;

verus! {

/// A directory in the making: its files with their hashes, and its subdirectories.
pub struct Node {
    pub blobs: Vec<(String, String)>,
    pub dirs: Vec<(String, Node)>,
}

/// Files to be arranged: for each, the names along its path, and its hash.
pub type Items = Seq<(Seq<Seq<char>>, Seq<char>)>;

/// The files of `m` in ascending order of their paths.
pub open spec fn items_of(m: model::Files) -> Items {
    let keys = strmap::ascending(m.dom());
    Seq::new(keys.len(), |i: int| (text::path_parts(keys[i]), m[keys[i]]))
}

/// The files that stand in the directory itself, in their order.
pub open spec fn blobs_in(items: Items) -> Seq<(Seq<char>, Seq<char>)>
    decreases items.len(),
{
    if items.len() == 0 {
        Seq::empty()
    } else if items.last().0.len() == 1 {
        blobs_in(items.drop_last()).push((items.last().0[0], items.last().1))
    } else {
        blobs_in(items.drop_last())
    }
}

/// The names of the subdirectories.
pub open spec fn dirs_in(items: Items) -> Set<Seq<char>> {
    Set::new(
        |d: Seq<char>|
            exists|i: int|
                0 <= i < items.len() && (#[trigger] items[i]).0.len() >= 2 && items[i].0[0] == d,
    )
}

/// The files of the subdirectory `d`, with their paths inside it.
pub open spec fn items_under(items: Items, d: Seq<char>) -> Items
    decreases items.len(),
{
    if items.len() == 0 {
        Seq::empty()
    } else if items.last().0.len() >= 2 && items.last().0[0] == d {
        items_under(items.drop_last(), d).push((items.last().0.drop_first(), items.last().1))
    } else {
        items_under(items.drop_last(), d)
    }
}

/// The node arranges the files `items`: its own files in their order, its subdirectories in
/// ascending order, and each of these the files under its name.
pub open spec fn holds(n: Node, items: Items) -> bool
    decreases n,
{
    &&& n.blobs@.map_values(|b: (String, String)| (b.0@, b.1@)) == blobs_in(items)
    &&& n.dirs@.map_values(|d: (String, Node)| d.0@) == strmap::ascending(dirs_in(items))
    &&& forall|j: int|
        0 <= j < n.dirs@.len() ==> holds(
            (#[trigger] n.dirs@[j]).1,
            items_under(items, n.dirs@[j].0@),
        )
}

// ---------------------------------------------------------------------------------------
// Arranging files
// ---------------------------------------------------------------------------------------
struct Row {
    parts: Vec<String>,
    hash: String,
}

spec fn row_item(r: Row, at: int) -> (Seq<Seq<char>>, Seq<char>) {
    (text::texts(r.parts@).skip(at), r.hash@)
}

spec fn selected(rows: Seq<Row>, sel: Seq<usize>, at: int) -> Items {
    Seq::new(sel.len(), |i: int| row_item(rows[sel[i] as int], at))
}

/// Every selected row exists and has at least `least` names, but no more than `limit`.
spec fn fits(rows: Seq<Row>, sel: Seq<usize>, least: int, limit: int) -> bool {
    forall|i: int|
        0 <= i < sel.len() ==> (#[trigger] sel[i]) < rows.len() && least
            <= rows[sel[i] as int].parts@.len() <= limit
}

fn own_blobs(rows: &Vec<Row>, sel: &Vec<usize>, at: usize) -> (r: Vec<(String, String)>)
    requires
        fits(rows@, sel@, at as int, usize::MAX as int),
    ensures
        r@.map_values(|b: (String, String)| (b.0@, b.1@)) == blobs_in(
            selected(rows@, sel@, at as int),
        ),
{
    let ghost items = selected(rows@, sel@, at as int);
    let ghost shape = |b: (String, String)| (b.0@, b.1@);
    let mut blobs: Vec<(String, String)> = Vec::new();
    let mut i: usize = 0;
    while i < sel.len()
        invariant
            i <= sel@.len(),
            fits(rows@, sel@, at as int, usize::MAX as int),
            items == selected(rows@, sel@, at as int),
            shape == (|b: (String, String)| (b.0@, b.1@)),
            blobs@.map_values(shape) == blobs_in(items.take(i as int)),
        decreases sel@.len() - i,
    {
        let row = &rows[sel[i]];
        let ghost before = blobs@.map_values(shape);
        proof {
            assert(items.take(i + 1).drop_last() =~= items.take(i as int));
            assert(items.take(i + 1).last() == row_item(*row, at as int));
        }
        if row.parts.len() - at == 1 {
            blobs.push((row.parts[at].clone(), row.hash.clone()));
            assert(blobs@.map_values(shape) =~= before.push((row.parts@[at as int]@, row.hash@)));
        }
        i = i + 1;
    }
    assert(items.take(i as int) =~= items);
    blobs
}

/// How one more file changes the names of the subdirectories.
pub proof fn lemma_dirs_step(items: Items, i: int)
    requires
        0 <= i < items.len(),
    ensures
        dirs_in(items.take(i + 1)) == (if items[i].0.len() >= 2 {
            dirs_in(items.take(i)).insert(items[i].0[0])
        } else {
            dirs_in(items.take(i))
        }),
{
    let a = items.take(i);
    let b = items.take(i + 1);
    assert forall|d: Seq<char>| dirs_in(b).contains(d) == (dirs_in(a).contains(d) || (items[i].0.len() >= 2 && d == items[i].0[0])) by {
        if dirs_in(a).contains(d) {
            let k = choose|k: int| 0 <= k < a.len() && (#[trigger] a[k]).0.len() >= 2 && a[k].0[0] == d;
            assert(b[k] == a[k]);
        }
        if items[i].0.len() >= 2 && d == items[i].0[0] {
            assert(b[i] == items[i]);
        }
        if dirs_in(b).contains(d) {
            let k = choose|k: int| 0 <= k < b.len() && (#[trigger] b[k]).0.len() >= 2 && b[k].0[0] == d;
            if k < i {
                assert(a[k] == b[k]);
            }
        }
    }
    assert(dirs_in(b) =~= (if items[i].0.len() >= 2 {
        dirs_in(a).insert(items[i].0[0])
    } else {
        dirs_in(a)
    }));
}

fn dir_names(rows: &Vec<Row>, sel: &Vec<usize>, at: usize) -> (r: StrSet)
    requires
        fits(rows@, sel@, at as int, usize::MAX as int),
    ensures
        r@ == dirs_in(selected(rows@, sel@, at as int)),
{
    let ghost items = selected(rows@, sel@, at as int);
    let mut names = StrSet::new();
    let mut i: usize = 0;
    assert(names@ =~= dirs_in(items.take(0)));
    while i < sel.len()
        invariant
            i <= sel@.len(),
            fits(rows@, sel@, at as int, usize::MAX as int),
            items == selected(rows@, sel@, at as int),
            names@ == dirs_in(items.take(i as int)),
        decreases sel@.len() - i,
    {
        let row = &rows[sel[i]];
        proof {
            lemma_dirs_step(items, i as int);
            assert(items[i as int] == row_item(*row, at as int));
        }
        if row.parts.len() - at >= 2 {
            names.insert(row.parts[at].clone());
        }
        i = i + 1;
    }
    assert(items.take(i as int) =~= items);
    names
}

/// Distributes the selected rows over the subdirectories.
fn distribute(rows: &Vec<Row>, sel: &Vec<usize>, at: usize, limit: usize, names: &StrSet) -> (r: Vec<Vec<usize>>)
    requires
        fits(rows@, sel@, at as int, limit as int),
        names@ == dirs_in(selected(rows@, sel@, at as int)),
        strmap::strictly_sorted(names.items()),
    ensures
        r@.len() == names.items().len(),
        forall|k: int|
            0 <= k < r@.len() ==> {
                &&& fits(rows@, (#[trigger] r@[k])@, at + 2, limit as int)
                &&& selected(rows@, r@[k]@, at + 1) == items_under(
                    selected(rows@, sel@, at as int),
                    names.items()[k],
                )
            },
{
    let ghost items = selected(rows@, sel@, at as int);
    let n = names.len();
    let mut buckets: Vec<Vec<usize>> = Vec::new();
    let mut k: usize = 0;
    while k < n
        invariant
            k <= n,
            buckets@.len() == k,
            forall|j: int| 0 <= j < k ==> (#[trigger] buckets@[j])@ == Seq::<usize>::empty(),
        decreases n - k,
    {
        buckets.push(Vec::new());
        k = k + 1;
    }
    proof {
        assert forall|j: int| 0 <= j < n implies {
            &&& fits(rows@, (#[trigger] buckets@[j])@, at + 2, limit as int)
            &&& selected(rows@, buckets@[j]@, at + 1) == items_under(items.take(0), names.items()[j])
        } by {
            assert(selected(rows@, buckets@[j]@, at + 1) =~= Seq::empty());
        }
    }
    let mut i: usize = 0;
    while i < sel.len()
        invariant
            i <= sel@.len(),
            n == names.items().len() == buckets@.len(),
            fits(rows@, sel@, at as int, limit as int),
            items == selected(rows@, sel@, at as int),
            names@ == dirs_in(items),
            strmap::strictly_sorted(names.items()),
            forall|j: int|
                0 <= j < n ==> {
                    &&& fits(rows@, (#[trigger] buckets@[j])@, at + 2, limit as int)
                    &&& selected(rows@, buckets@[j]@, at + 1) == items_under(
                        items.take(i as int),
                        names.items()[j],
                    )
                },
        decreases sel@.len() - i,
    {
        let row = &rows[sel[i]];
        let ghost before = buckets@;
        let ghost item = row_item(*row, at as int);
        proof {
            assert(items.take(i + 1).drop_last() =~= items.take(i as int));
            assert(items.take(i + 1).last() == item);
            assert(items[i as int] == item);
        }
        if row.parts.len() - at >= 2 {
            assert(item.0[0] == row.parts@[at as int]@);
            assert(names@.contains(item.0[0]));
            match names.position(row.parts[at].as_str()) {
                Some(p) => {
                    buckets[p].push(sel[i]);
                    proof {
                        assert forall|j: int| 0 <= j < n implies {
                            &&& fits(rows@, (#[trigger] buckets@[j])@, at + 2, limit as int)
                            &&& selected(rows@, buckets@[j]@, at + 1) == items_under(
                                items.take(i + 1),
                                names.items()[j],
                            )
                        } by {
                            assert(fits(rows@, before[j]@, at + 2, limit as int));
                            if j == p {
                                assert(item.0.drop_first() =~= text::texts(row.parts@).skip(at + 1));
                                assert(selected(rows@, buckets@[j]@, at + 1) =~= selected(
                                    rows@,
                                    before[j]@,
                                    at + 1,
                                ).push((item.0.drop_first(), item.1)));
                            } else {
                                assert(buckets@[j] == before[j]);
                                text::lemma_lex_irreflexive(names.items()[j]);
                                if j < p {
                                    assert(text::lex_lt(names.items()[j], names.items()[p as int]));
                                } else {
                                    assert(text::lex_lt(names.items()[p as int], names.items()[j]));
                                }
                            }
                        }
                    }
                },
                None => {},
            }
        }
        i = i + 1;
    }
    assert(items.take(i as int) =~= items);
    buckets
}

fn arrange(rows: &Vec<Row>, sel: &Vec<usize>, at: usize, limit: usize) -> (r: Node)
    requires
        fits(rows@, sel@, at as int, limit as int),
    ensures
        holds(r, selected(rows@, sel@, at as int)),
    decreases limit - at,
{
    let ghost items = selected(rows@, sel@, at as int);
    let blobs = own_blobs(rows, sel, at);
    let names = dir_names(rows, sel, at);
    let n = names.len();
    let buckets = distribute(rows, sel, at, limit, &names);
    let mut dirs: Vec<(String, Node)> = Vec::new();
    let mut k: usize = 0;
    while k < n
        invariant
            k <= n == names.items().len() == buckets@.len(),
            dirs@.len() == k,
            fits(rows@, sel@, at as int, limit as int),
            items == selected(rows@, sel@, at as int),
            names@ == dirs_in(items),
            forall|j: int|
                0 <= j < n ==> {
                    &&& fits(rows@, (#[trigger] buckets@[j])@, at + 2, limit as int)
                    &&& selected(rows@, buckets@[j]@, at + 1) == items_under(
                        items,
                        names.items()[j],
                    )
                },
            forall|j: int|
                0 <= j < k ==> {
                    &&& (#[trigger] dirs@[j]).0@ == names.items()[j]
                    &&& holds(dirs@[j].1, items_under(items, names.items()[j]))
                },
        decreases n - k,
    {
        let name = names.item(k);
        proof {
            assert(dirs_in(items).contains(name@));
            let i = choose|i: int| 0 <= i < items.len() && (#[trigger] items[i]).0.len() >= 2 && items[i].0[0] == name@;
            assert(items[i] == row_item(rows@[sel@[i] as int], at as int));
            assert(sel@[i] < rows@.len());
            assert(fits(rows@, buckets@[k as int]@, at + 2, limit as int));
        }
        let child = arrange(rows, &buckets[k], at + 1, limit);
        dirs.push((name.clone(), child));
        k = k + 1;
    }
    let r = Node { blobs, dirs };
    proof {
        assert(r.dirs@.map_values(|d: (String, Node)| d.0@) =~= names.items());
        assert forall|j: int| 0 <= j < r.dirs@.len() implies holds((#[trigger] r.dirs@[j]).1, items_under(items, r.dirs@[j].0@)) by {
            assert(r.dirs@[j].0@ == names.items()[j]);
        }
    }
    r
}

/// Arranges the files of `index` in directories. A path without any name in it has no place.
pub fn build_tree_from_index(index: &FileMap) -> (r: Node)
    ensures
        holds(r, items_of(index@)),
{
    let n = index.len();
    let mut rows: Vec<Row> = Vec::new();
    let mut sel: Vec<usize> = Vec::new();
    let mut limit: usize = 0;
    let mut i: usize = 0;
    while i < n
        invariant
            i <= n == index.keys().len(),
            rows@.len() == i,
            sel@.len() == i,
            forall|k: int| 0 <= k < i ==> (#[trigger] sel@[k]) == k,
            forall|k: int|
                0 <= k < i ==> {
                    &&& (#[trigger] rows@[k]).parts@.len() <= limit
                    &&& text::texts(rows@[k].parts@) == text::path_parts(index.keys()[k])
                    &&& rows@[k].hash@ == index@[index.keys()[k]]
                },
        decreases n - i,
    {
        let parts = split_path(index.key(i).as_str());
        if parts.len() > limit {
            limit = parts.len();
        }
        rows.push(Row { parts, hash: index.value(i).clone() });
        sel.push(i);
        i = i + 1;
    }
    proof {
        assert forall|k: int| 0 <= k < sel@.len() implies (#[trigger] sel@[k]) < rows@.len() && 0 <= rows@[sel@[k] as int].parts@.len() <= limit by {
            assert(sel@[k] == k);
            assert(rows@[k].parts@.len() <= limit);
        }
        let items = selected(rows@, sel@, 0);
        assert forall|k: int| 0 <= k < items.len() implies items[k] == items_of(index@)[k] by {
            assert(sel@[k] == k);
            assert(text::texts(rows@[k].parts@) == text::path_parts(index.keys()[k]));
            assert(text::texts(rows@[k].parts@).skip(0) =~= text::texts(rows@[k].parts@));
        }
        assert(items =~= items_of(index@));
    }
    arrange(&rows, &sel, 0, limit)
}

// ---------------------------------------------------------------------------------------
// Listings
// ---------------------------------------------------------------------------------------
/// The entry of a file.
pub open spec fn blob_entry(name: Seq<char>, hash: Seq<char>) -> model::TreeEntryView {
    model::TreeEntryView { name, kind: "blob"@, hash, mode: "100644"@ }
}

/// The entry of a subdirectory.
pub open spec fn dir_entry(name: Seq<char>, hash: Seq<char>) -> model::TreeEntryView {
    model::TreeEntryView { name, kind: "tree"@, hash, mode: "040000"@ }
}

/// The entries of a node whose subdirectories are stored under the hashes `hashes`: first its
/// files, then its subdirectories.
pub open spec fn node_entries(n: Node, hashes: Seq<Seq<char>>) -> Seq<model::TreeEntryView> {
    n.blobs@.map_values(|b: (String, String)| blob_entry(b.0@, b.1@)) + Seq::new(
        n.dirs@.len(),
        |j: int| dir_entry(n.dirs@[j].0@, hashes[j]),
    )
}

/// `e` put into a listing, after every entry that does not come after it by name.
pub open spec fn placed(s: Seq<model::TreeEntryView>, e: model::TreeEntryView) -> Seq<model::TreeEntryView>
    decreases s.len(),
{
    if s.len() > 0 && text::lex_lt(e.name, s.last().name) {
        placed(s.drop_last(), e).push(s.last())
    } else {
        s.push(e)
    }
}

/// The entries in ascending order of their names; those of the same name keep their order.
pub open spec fn by_name(s: Seq<model::TreeEntryView>) -> Seq<model::TreeEntryView>
    decreases s.len(),
{
    if s.len() == 0 {
        s
    } else {
        placed(by_name(s.drop_last()), s.last())
    }
}

proof fn lemma_placed_insert(s: Seq<model::TreeEntryView>, e: model::TreeEntryView, j: int)
    requires
        0 <= j <= s.len(),
        forall|k: int| j <= k < s.len() ==> text::lex_lt(e.name, (#[trigger] s[k]).name),
        j > 0 ==> !text::lex_lt(e.name, s[j - 1].name),
    ensures
        placed(s, e) == s.insert(j, e),
    decreases s.len(),
{
    if j < s.len() {
        lemma_placed_insert(s.drop_last(), e, j);
        assert(s.insert(j, e) =~= s.drop_last().insert(j, e).push(s.last()));
    } else {
        assert(s.insert(j, e) =~= s.push(e));
    }
}

/// Puts `e` into the listing `v`.
fn place(v: &mut Vec<TreeEntry>, e: TreeEntry)
    ensures
        model::entry_views(final(v)@) == placed(model::entry_views(old(v)@), e@),
{
    let ghost s = model::entry_views(v@);
    let mut j: usize = v.len();
    while j > 0 && text::str_lt(e.name.as_str(), v[j - 1].name.as_str())
        invariant
            j <= v@.len(),
            s == model::entry_views(v@),
            forall|k: int| j <= k < s.len() ==> text::lex_lt(e.name@, (#[trigger] s[k]).name),
        decreases j,
    {
        j = j - 1;
    }
    proof {
        if j > 0 {
            assert(s[j - 1] == v@[j - 1]@);
        }
        lemma_placed_insert(s, e@, j as int);
    }
    v.insert(j, e);
    assert(model::entry_views(v@) =~= s.insert(j as int, e@));
}

/// The listing as it is stored: in ascending order of the names.
pub fn sorted_tree(t: &Tree) -> (r: Tree)
    ensures
        r@ == by_name(t@),
{
    let mut out: Vec<TreeEntry> = Vec::new();
    let mut i: usize = 0;
    assert(model::entry_views(out@) =~= by_name(t@.take(0)));
    while i < t.entries.len()
        invariant
            i <= t.entries@.len(),
            model::entry_views(out@) == by_name(t@.take(i as int)),
        decreases t.entries@.len() - i,
    {
        proof {
            assert(t@.take(i + 1).drop_last() =~= t@.take(i as int));
            assert(t@.take(i + 1).last() == t.entries@[i as int]@);
        }
        place(&mut out, t.entries[i].copy());
        i = i + 1;
    }
    assert(t@.take(i as int) =~= t@);
    Tree { entries: out }
}

impl Node {
    /// The listing of the directory, given the hashes under which its subdirectories are
    /// stored, in their order.
    pub fn tree(&self, hashes: &Vec<String>) -> (r: Tree)
        requires
            hashes@.len() == self.dirs@.len(),
        ensures
            r@ == by_name(node_entries(*self, text::texts(hashes@))),
    {
        let ghost want = node_entries(*self, text::texts(hashes@));
        let mut entries: Vec<TreeEntry> = Vec::new();
        let mut i: usize = 0;
        while i < self.blobs.len()
            invariant
                i <= self.blobs@.len(),
                want == node_entries(*self, text::texts(hashes@)),
                hashes@.len() == self.dirs@.len(),
                model::entry_views(entries@) == want.take(i as int),
            decreases self.blobs@.len() - i,
        {
            let ghost before = model::entry_views(entries@);
            let e = TreeEntry {
                name: self.blobs[i].0.clone(),
                kind: String::from_str("blob"),
                hash: self.blobs[i].1.clone(),
                mode: String::from_str("100644"),
            };
            assert(e@ == want[i as int]);
            entries.push(e);
            proof {
                assert(model::entry_views(entries@) =~= before.push(e@));
                assert(want.take(i + 1) =~= want.take(i as int).push(want[i as int]));
            }
            i = i + 1;
        }
        let mut j: usize = 0;
        let nb = self.blobs.len();
        while j < self.dirs.len()
            invariant
                j <= self.dirs@.len(),
                nb == self.blobs@.len(),
                want == node_entries(*self, text::texts(hashes@)),
                hashes@.len() == self.dirs@.len(),
                model::entry_views(entries@) == want.take(nb + j),
            decreases self.dirs@.len() - j,
        {
            let ghost before = model::entry_views(entries@);
            let e = TreeEntry {
                name: self.dirs[j].0.clone(),
                kind: String::from_str("tree"),
                hash: hashes[j].clone(),
                mode: String::from_str("040000"),
            };
            assert(e@ == want[nb + j]);
            entries.push(e);
            proof {
                assert(model::entry_views(entries@) =~= before.push(e@));
                assert(want.take(nb + j + 1) =~= want.take(nb + j).push(want[nb + j]));
            }
            j = j + 1;
        }
        let t = Tree { entries };
        assert(t@ =~= want);
        sorted_tree(&t)
    }
}

// ---------------------------------------------------------------------------------------
// Laws
// ---------------------------------------------------------------------------------------
/// Sorting a listing keeps its entries, each as often as it stands there, and puts no entry behind
/// one whose name comes after its own.
pub proof fn law_sorting_keeps_the_entries(s: Seq<model::TreeEntryView>)
    ensures
        by_name(s).to_multiset() == s.to_multiset(),
        by_name(s).len() == s.len(),
        forall|i: int, j: int|
            0 <= i < j < by_name(s).len() ==> !text::lex_lt((#[trigger] by_name(s)[j]).name, (#[trigger] by_name(s)[i]).name),
    decreases s.len(),
{
    if s.len() > 0 {
        let f = s.drop_last();
        law_sorting_keeps_the_entries(f);
        lemma_placed_sorted(by_name(f), s.last());
        assert(s =~= f.push(s.last()));
        vstd::seq_lib::to_multiset_build(f, s.last());
    }
}

proof fn lemma_placed_sorted(s: Seq<model::TreeEntryView>, e: model::TreeEntryView)
    requires
        forall|i: int, j: int|
            0 <= i < j < s.len() ==> !text::lex_lt((#[trigger] s[j]).name, (#[trigger] s[i]).name),
    ensures
        placed(s, e).to_multiset() == s.to_multiset().insert(e),
        placed(s, e).len() == s.len() + 1,
        forall|i: int, j: int|
            0 <= i < j < placed(s, e).len() ==> !text::lex_lt(
                (#[trigger] placed(s, e)[j]).name,
                (#[trigger] placed(s, e)[i]).name,
            ),
        forall|x: model::TreeEntryView| #[trigger] placed(s, e).contains(x) ==> x == e || s.contains(x),
    decreases s.len(),
{
    let r = placed(s, e);
    if s.len() > 0 && text::lex_lt(e.name, s.last().name) {
        let f = s.drop_last();
        assert forall|i: int, j: int| 0 <= i < j < f.len() implies !text::lex_lt(
            (#[trigger] f[j]).name,
            (#[trigger] f[i]).name,
        ) by {
            assert(f[j] == s[j] && f[i] == s[i]);
        }
        lemma_placed_sorted(f, e);
        let g = placed(f, e);
        assert(s =~= f.push(s.last()));
        vstd::seq_lib::to_multiset_build(f, s.last());
        vstd::seq_lib::to_multiset_build(g, s.last());
        assert(r.to_multiset() =~= s.to_multiset().insert(e));
        text::lemma_lex_asymmetric(e.name, s.last().name);
        assert forall|i: int, j: int| 0 <= i < j < r.len() implies !text::lex_lt(
            (#[trigger] r[j]).name,
            (#[trigger] r[i]).name,
        ) by {
            if j < g.len() {
                assert(r[j] == g[j] && r[i] == g[i]);
            } else {
                assert(r[i] == g[i]);
                assert(g.contains(g[i]));
                if g[i] != e {
                    let k = choose|k: int| 0 <= k < f.len() && f[k] == g[i];
                    assert(s[k] == g[i]);
                    assert(s[s.len() - 1] == s.last());
                }
            }
        }
        assert forall|x: model::TreeEntryView| #[trigger] r.contains(x) implies x == e || s.contains(x) by {
            let k = choose|k: int| 0 <= k < r.len() && r[k] == x;
            if k < g.len() {
                assert(g.contains(x));
                if x != e {
                    let m = choose|m: int| 0 <= m < f.len() && f[m] == x;
                    assert(s[m] == x);
                }
            } else {
                assert(s[s.len() - 1] == x);
            }
        }
    } else {
        vstd::seq_lib::to_multiset_build(s, e);
        if s.len() > 0 {
            assert forall|i: int| 0 <= i < s.len() implies !text::lex_lt(e.name, (#[trigger] s[i]).name) by {
                if text::lex_lt(e.name, s[i].name) && i < s.len() - 1 {
                    assert(!text::lex_lt(s[s.len() - 1].name, s[i].name));
                    lemma_not_less(e.name, s[i].name, s.last().name);
                }
            }
        }
        assert forall|i: int, j: int| 0 <= i < j < r.len() implies !text::lex_lt(
            (#[trigger] r[j]).name,
            (#[trigger] r[i]).name,
        ) by {
            assert(r[i] == s[i]);
            if j < s.len() {
                assert(r[j] == s[j]);
            }
        }
        assert forall|x: model::TreeEntryView| #[trigger] r.contains(x) implies x == e || s.contains(x) by {
            let k = choose|k: int| 0 <= k < r.len() && r[k] == x;
            if k < s.len() {
                assert(s[k] == x);
            }
        }
    }
}

proof fn lemma_not_less(a: Seq<char>, b: Seq<char>, c: Seq<char>)
    requires
        text::lex_lt(a, b),
        !text::lex_lt(c, b),
    ensures
        text::lex_lt(a, c),
{
    if b == c {
    } else {
        text::lemma_lex_total(b, c);
        text::lemma_lex_transitive(a, b, c);
    }
}

/// The entries of a node are one for each of its files, with the hash of the file, and one for
/// each of its subdirectories, with the hash under which it is stored; each says which it is.
pub proof fn law_entries_say_what_they_are(n: Node, hashes: Seq<Seq<char>>, i: int)
    ensures
        node_entries(n, hashes).len() == n.blobs@.len() + n.dirs@.len(),
        0 <= i < n.blobs@.len() ==> {
            let e = node_entries(n, hashes)[i];
            e.name == n.blobs@[i].0@ && e.hash == n.blobs@[i].1@ && e.kind == "blob"@ && e.mode == "100644"@
        },
        0 <= i < n.dirs@.len() ==> {
            let e = node_entries(n, hashes)[n.blobs@.len() + i];
            e.name == n.dirs@[i].0@ && e.hash == hashes[i] && e.kind == "tree"@ && e.mode == "040000"@
        },
{
}

} // verus!

//! Merging three sets of files.

use vstd::prelude::*;
use vstd::string::*;

use crate::bytes;
use crate::model;
use crate::model::FileMap;
use crate::strmap;
use crate::strmap::{StrMap, StrSet};
use crate::text;

verus! {

// ---------------------------------------------------------------------------------------
// Contents
// ---------------------------------------------------------------------------------------
/// A control character that plain text does not hold.
pub open spec fn is_odd(c: u8) -> bool {
    c < 9 || 13 < c < 32
}

/// How many odd control characters `b` holds.
pub open spec fn odd_count(b: Seq<u8>) -> nat
    decreases b.len(),
{
    if b.len() == 0 {
        0
    } else {
        odd_count(b.drop_last()) + if is_odd(b.last()) {
            1nat
        } else {
            0nat
        }
    }
}

/// Whether `b` looks like text: no zero byte, and of a hundred bytes less than two are odd
/// control characters.
pub open spec fn looks_like_text(b: Seq<u8>) -> bool {
    b.len() == 0 || (!b.contains(0u8) && (odd_count(b) * 100) / b.len() < 2)
}

/// Whether `b` looks like text.
pub fn is_text(b: &[u8]) -> (r: bool)
    ensures
        r == looks_like_text(b@),
{
    let n = b.len();
    if n == 0 {
        return true;
    }
    let mut bad: usize = 0;
    let mut i: usize = 0;
    assert(b@.take(0) =~= Seq::empty());
    while i < n
        invariant
            i <= n == b@.len(),
            bad == odd_count(b@.take(i as int)),
            bad <= i,
            forall|j: int| 0 <= j < i ==> b@[j] != 0,
        decreases n - i,
    {
        let c: u8 = b[i];
        if c == 0 {
            assert(b@[i as int] == 0);
            return false;
        }
        proof {
            assert(b@.take(i + 1).drop_last() =~= b@.take(i as int));
            assert(b@.take(i + 1).last() == c);
        }
        if c < 9 || (c > 13 && c < 32) {
            bad = bad + 1;
        }
        i = i + 1;
    }
    assert(b@.take(i as int) =~= b@);
    (bad as u128) * 100 / (n as u128) < 2
}

/// `b` with a line break at its end.
pub open spec fn line_closed(b: Seq<u8>) -> Seq<u8> {
    if b.len() > 0 && b.last() == 10u8 {
        b
    } else {
        b.push(10u8)
    }
}

/// Both contents between conflict markers.
pub open spec fn marked(path: Seq<char>, ours: Seq<u8>, theirs: Seq<u8>) -> Seq<u8> {
    bytes::utf8("<<<<<<< ours ("@ + path + ")\n"@) + line_closed(ours) + bytes::utf8("=======\n"@)
        + line_closed(theirs) + bytes::utf8(">>>>>>> theirs ("@ + path + ")\n"@)
}

fn append_closed(out: &mut Vec<u8>, b: &[u8])
    ensures
        final(out)@ == old(out)@ + line_closed(b@),
{
    let ghost start = out@;
    bytes::append(out, b);
    if b.len() == 0 || b[b.len() - 1] != 10 {
        out.push(10u8);
    }
    assert(out@ =~= start + line_closed(b@));
}

/// Both contents between conflict markers.
pub fn conflict_bytes(path: &str, ours: &[u8], theirs: &[u8]) -> (r: Vec<u8>)
    ensures
        r@ == marked(path@, ours@, theirs@),
{
    let mut head = text::concat("<<<<<<< ours (", path);
    head.append(")\n");
    let mut foot = text::concat(">>>>>>> theirs (", path);
    foot.append(")\n");
    let mut out: Vec<u8> = Vec::new();
    bytes::append_text(&mut out, head.as_str());
    append_closed(&mut out, ours);
    bytes::append_text(&mut out, "=======\n");
    append_closed(&mut out, theirs);
    bytes::append_text(&mut out, foot.as_str());
    assert(out@ =~= marked(path@, ours@, theirs@));
    out
}

/// The contents that a merge of texts gives: where only one side changed, that side; where
/// both changed alike, either; else both between conflict markers.
pub open spec fn text_merged(path: Seq<char>, base: Seq<u8>, ours: Seq<u8>, theirs: Seq<u8>) -> Seq<u8> {
    if ours == theirs || theirs == base {
        ours
    } else if ours == base {
        theirs
    } else {
        marked(path, ours, theirs)
    }
}

/// Merges the contents of a text.
pub fn merge_text_3way(path: &str, base: &[u8], ours: &[u8], theirs: &[u8]) -> (r: Vec<u8>)
    ensures
        r@ == text_merged(path@, base@, ours@, theirs@),
{
    if bytes::equal(ours, theirs) {
        return bytes::copy(ours);
    }
    if bytes::equal(ours, base) {
        return bytes::copy(theirs);
    }
    if bytes::equal(theirs, base) {
        return bytes::copy(ours);
    }
    conflict_bytes(path, ours, theirs)
}

/// The contents that stand for a file on which both sides differ. `base` is what it held
/// before, where there was such a file.
pub open spec fn resolved(path: Seq<char>, base: Option<Seq<u8>>, ours: Seq<u8>, theirs: Seq<u8>) -> Seq<u8> {
    match base {
        Some(b) => if looks_like_text(b) && looks_like_text(ours) && looks_like_text(theirs) {
            text_merged(path, b, ours, theirs)
        } else {
            marked(path, ours, theirs)
        },
        None => marked(path, ours, theirs),
    }
}

/// What optional contents hold.
pub open spec fn opt_bytes(b: Option<Vec<u8>>) -> Option<Seq<u8>> {
    match b {
        Some(v) => Some(v@),
        None => None,
    }
}

/// The contents that stand for a file on which both sides differ.
pub fn resolve_clash(path: &str, base: &Option<Vec<u8>>, ours: &[u8], theirs: &[u8]) -> (r: Vec<u8>)
    ensures
        r@ == resolved(path@, opt_bytes(*base), ours@, theirs@),
{
    match base {
        Some(b) => {
            if is_text(b.as_slice()) && is_text(ours) && is_text(theirs) {
                merge_text_3way(path, b.as_slice(), ours, theirs)
            } else {
                conflict_bytes(path, ours, theirs)
            }
        },
        None => conflict_bytes(path, ours, theirs),
    }
}

// ---------------------------------------------------------------------------------------
// Files
// ---------------------------------------------------------------------------------------
/// What becomes of one path.
pub enum Outcome {
    /// No file stands there.
    Gone,
    /// The file with this hash stands there.
    Take { hash: Seq<char> },
    /// Both sides changed it, or both made it, and not alike.
    Clash { base: Option<Seq<char>>, ours: Seq<char>, theirs: Seq<char> },
}

/// What becomes of a path that has these files on the three sides.
pub open spec fn outcome(b: Option<Seq<char>>, o: Option<Seq<char>>, t: Option<Seq<char>>) -> Outcome {
    match (o, t) {
        (None, None) => Outcome::Gone,
        (Some(oh), Some(th)) => if oh == th || b == t {
            Outcome::Take { hash: oh }
        } else if b == o {
            Outcome::Take { hash: th }
        } else {
            Outcome::Clash { base: b, ours: oh, theirs: th }
        },
        (Some(oh), None) => if b == o {
            Outcome::Gone
        } else {
            Outcome::Take { hash: oh }
        },
        (None, Some(th)) => if b == t {
            Outcome::Gone
        } else {
            Outcome::Take { hash: th }
        },
    }
}

/// The file at `p`, where there is one.
pub open spec fn at(m: model::Files, p: Seq<char>) -> Option<Seq<char>> {
    if m.contains_key(p) {
        Some(m[p])
    } else {
        None
    }
}

/// What becomes of the path `p`.
pub open spec fn outcome_at(b: model::Files, o: model::Files, t: model::Files, p: Seq<char>) -> Outcome {
    outcome(at(b, p), at(o, p), at(t, p))
}

/// Every path of the three sides.
pub open spec fn all_paths(b: model::Files, o: model::Files, t: model::Files) -> Set<Seq<char>> {
    b.dom().union(o.dom()).union(t.dom())
}

/// The files on which the sides do not clash.
pub open spec fn agreed(b: model::Files, o: model::Files, t: model::Files) -> model::Files {
    Map::new(
        |p: Seq<char>| outcome_at(b, o, t, p) is Take,
        |p: Seq<char>| outcome_at(b, o, t, p)->hash,
    )
}

/// The paths on which both sides clash.
pub open spec fn clash_paths(b: model::Files, o: model::Files, t: model::Files) -> Set<Seq<char>> {
    all_paths(b, o, t).filter(|p: Seq<char>| outcome_at(b, o, t, p) is Clash)
}

/// A file on which both sides clash.
#[derive(Clone, Debug, PartialEq, Eq)]
pub struct Clash {
    pub path: String,
    pub base: Option<String>,
    pub ours: String,
    pub theirs: String,
}

/// What a `Clash` says.
pub struct ClashView {
    pub path: Seq<char>,
    pub base: Option<Seq<char>>,
    pub ours: Seq<char>,
    pub theirs: Seq<char>,
}

impl View for Clash {
    type V = ClashView;

    open spec fn view(&self) -> ClashView {
        ClashView {
            path: self.path@,
            base: model::opt_text(self.base),
            ours: self.ours@,
            theirs: self.theirs@,
        }
    }
}

/// What a list of clashes says.
pub open spec fn clash_views(v: Seq<Clash>) -> Seq<ClashView> {
    v.map_values(|c: Clash| c@)
}

/// The clash at each of `paths`.
pub open spec fn clashes_at(paths: Seq<Seq<char>>, b: model::Files, o: model::Files, t: model::Files) -> Seq<
    ClashView,
> {
    paths.map_values(
        |p: Seq<char>| ClashView { path: p, base: at(b, p), ours: o[p], theirs: t[p] },
    )
}

/// A merge, as far as hashes settle it: the files that stand, and the clashes that are left,
/// in ascending order of their paths.
pub struct MergePlan {
    pub settled: FileMap,
    pub clashes: Vec<Clash>,
}

fn add_keys(s: &mut StrSet, m: &FileMap)
    ensures
        final(s)@ == old(s)@.union(m@.dom()),
{
    let ghost start = s@;
    let n = m.len();
    let ghost ks = m.keys();
    let mut i: usize = 0;
    while i < n
        invariant
            i <= n == ks.len(),
            ks == m.keys(),
            forall|p: Seq<char>| #[trigger] s@.contains(p) <==> start.contains(p) || ks.take(i as int).contains(p),
        decreases n - i,
    {
        let ghost before = s@;
        let ghost seen = ks.take(i as int);
        s.insert(m.key(i).clone());
        proof {
            assert(ks.take(i + 1) =~= seen.push(ks[i as int]));
            assert forall|p: Seq<char>|
                #[trigger] s@.contains(p) <==> start.contains(p) || ks.take(i + 1).contains(p) by {
                strmap::lemma_push_contains(seen, ks[i as int], p);
                assert(before.contains(p) <==> start.contains(p) || seen.contains(p));
            }
        }
        i = i + 1;
    }
    proof {
        assert(ks.take(i as int) =~= ks);
        assert forall|p: Seq<char>| #[trigger] s@.contains(p) <==> start.union(m@.dom()).contains(p) by {
            assert(m@.dom().contains(p) <==> ks.contains(p));
        }
        assert(s@ =~= start.union(m@.dom()));
    }
}

fn same(a: Option<&String>, b: &String) -> (r: bool)
    ensures
        r == (match a {
            Some(x) => x@ == b@,
            None => false,
        }),
{
    match a {
        Some(x) => text::str_eq(x.as_str(), b.as_str()),
        None => false,
    }
}

/// What becomes of one path.
enum Decision {
    Gone,
    Take(String),
    Split(Option<String>, String, String),
}

/// What a `Decision` says.
spec fn decided(d: Decision) -> Outcome {
    match d {
        Decision::Gone => Outcome::Gone,
        Decision::Take(h) => Outcome::Take { hash: h@ },
        Decision::Split(b, o, t) => Outcome::Clash { base: model::opt_text(b), ours: o@, theirs: t@ },
    }
}

/// What an optional reference to a string says.
spec fn ref_text(o: Option<&String>) -> Option<Seq<char>> {
    match o {
        Some(x) => Some(x@),
        None => None,
    }
}

/// Decides what becomes of one path.
fn decide(b: Option<&String>, o: Option<&String>, t: Option<&String>) -> (r: Decision)
    ensures
        decided(r) == outcome(ref_text(b), ref_text(o), ref_text(t)),
{
    match (o, t) {
        (None, None) => Decision::Gone,
        (Some(oh), None) => {
            if same(b, oh) {
                Decision::Gone
            } else {
                Decision::Take(oh.clone())
            }
        },
        (None, Some(th)) => {
            if same(b, th) {
                Decision::Gone
            } else {
                Decision::Take(th.clone())
            }
        },
        (Some(oh), Some(th)) => {
            if text::str_eq(oh.as_str(), th.as_str()) || same(b, th) {
                Decision::Take(oh.clone())
            } else if same(b, oh) {
                Decision::Take(th.clone())
            } else {
                let base = match b {
                    Some(bh) => Some(bh.clone()),
                    None => None,
                };
                Decision::Split(base, oh.clone(), th.clone())
            }
        },
    }
}

/// Merges three sets of files, as far as hashes settle it.
pub fn three_way_merge(base: &FileMap, ours: &FileMap, theirs: &FileMap) -> (r: MergePlan)
    ensures
        r.settled@ == agreed(base@, ours@, theirs@),
        clash_views(r.clashes@) == clashes_at(
            strmap::ascending(clash_paths(base@, ours@, theirs@)),
            base@,
            ours@,
            theirs@,
        ),
{
    let ghost (b, o, t) = (base@, ours@, theirs@);
    let mut paths = StrSet::new();
    add_keys(&mut paths, base);
    add_keys(&mut paths, ours);
    add_keys(&mut paths, theirs);
    assert(paths@ =~= all_paths(b, o, t));
    let mut settled: FileMap = StrMap::new();
    let mut clashes: Vec<Clash> = Vec::new();
    let ghost pick = |p: Seq<char>| outcome_at(b, o, t, p) is Clash;
    let n = paths.len();
    let ghost ps = paths.items();
    let mut i: usize = 0;
    assert(clash_views(clashes@) =~= clashes_at(strmap::picked(ps.take(0), pick), b, o, t));
    while i < n
        invariant
            i <= n == ps.len(),
            ps == paths.items(),
            b == base@,
            o == ours@,
            t == theirs@,
            pick == (|p: Seq<char>| outcome_at(b, o, t, p) is Clash),
            forall|p: Seq<char>|
                #[trigger] settled@.contains_key(p) <==> ps.take(i as int).contains(p) && outcome_at(b, o, t, p) is Take,
            forall|p: Seq<char>|
                #[trigger] settled@.contains_key(p) ==> settled@[p] == outcome_at(b, o, t, p)->hash,
            clash_views(clashes@) == clashes_at(strmap::picked(ps.take(i as int), pick), b, o, t),
        decreases n - i,
    {
        let p = paths.item(i);
        let ghost before = settled@;
        let ghost old_clashes = clash_views(clashes@);
        let ghost seen = ps.take(i as int);
        let decision = decide(base.get(p.as_str()), ours.get(p.as_str()), theirs.get(p.as_str()));
        proof {
            assert(ps.take(i + 1).drop_last() =~= seen);
            assert(ps.take(i + 1).last() == p@);
            assert(ps.take(i + 1) =~= seen.push(p@));
            assert(decided(decision) == outcome_at(b, o, t, p@));
        }
        match decision {
            Decision::Gone => {},
            Decision::Take(h) => {
                settled.insert(p.clone(), h);
            },
            Decision::Split(cb, co, ct) => {
                let c = Clash { path: p.clone(), base: cb, ours: co, theirs: ct };
                let ghost cv = c@;
                clashes.push(c);
                proof {
                    assert(clash_views(clashes@) =~= old_clashes.push(cv));
                    assert(clashes_at(strmap::picked(ps.take(i + 1), pick), b, o, t) =~= clashes_at(
                        strmap::picked(seen, pick),
                        b,
                        o,
                        t,
                    ).push(cv));
                }
            },
        }
        proof {
            assert forall|q: Seq<char>|
                #[trigger] settled@.contains_key(q) <==> ps.take(i + 1).contains(q) && outcome_at(b, o, t, q) is Take by {
                strmap::lemma_push_contains(seen, p@, q);
                assert(before.contains_key(q) <==> seen.contains(q) && outcome_at(b, o, t, q) is Take);
            }
        }
        i = i + 1;
    }
    proof {
        assert(ps.take(i as int) =~= ps);
        strmap::lemma_picked_ascending(ps, paths@, pick);
        let want = agreed(b, o, t);
        assert forall|p: Seq<char>| #[trigger] settled@.contains_key(p) <==> want.contains_key(p) by {
            assert(paths@.contains(p) <==> ps.contains(p));
        }
        assert(settled@.dom() =~= want.dom());
        assert(settled@ =~= want);
    }
    MergePlan { settled, clashes }
}

/// `settled` with the file `hashes[i]` at `paths[i]`, for each `i`.
pub open spec fn with_files(settled: model::Files, paths: Seq<Seq<char>>, hashes: Seq<Seq<char>>) -> model::Files
    decreases paths.len(),
{
    if paths.len() == 0 || paths.len() != hashes.len() {
        settled
    } else {
        with_files(settled, paths.drop_last(), hashes.drop_last()).insert(paths.last(), hashes.last())
    }
}

/// The paths of clashes.
pub open spec fn paths_of(v: Seq<ClashView>) -> Seq<Seq<char>> {
    v.map_values(|c: ClashView| c.path)
}

/// The merged files, once the contents that stand for each clash are stored under `hashes`.
pub fn finish_merge(plan: MergePlan, hashes: &Vec<String>) -> (r: FileMap)
    requires
        hashes@.len() == plan.clashes@.len(),
    ensures
        r@ == with_files(plan.settled@, paths_of(clash_views(plan.clashes@)), text::texts(hashes@)),
{
    let MergePlan { settled, clashes } = plan;
    let ghost start = settled@;
    let ghost ps = paths_of(clash_views(clashes@));
    let ghost hs = text::texts(hashes@);
    let mut out = settled;
    let mut i: usize = 0;
    assert(ps.take(0) =~= Seq::empty());
    while i < clashes.len()
        invariant
            i <= clashes@.len() == hashes@.len(),
            ps == paths_of(clash_views(clashes@)),
            hs == text::texts(hashes@),
            out@ == with_files(start, ps.take(i as int), hs.take(i as int)),
        decreases clashes@.len() - i,
    {
        out.insert(clashes[i].path.clone(), hashes[i].clone());
        proof {
            assert(ps.take(i + 1).drop_last() =~= ps.take(i as int));
            assert(hs.take(i + 1).drop_last() =~= hs.take(i as int));
        }
        i = i + 1;
    }
    proof {
        assert(ps.take(i as int) =~= ps);
        assert(hs.take(i as int) =~= hs);
    }
    out
}

// ---------------------------------------------------------------------------------------
// Laws
// ---------------------------------------------------------------------------------------
/// Where only our side changed, a merge keeps our files, without any clash.
pub proof fn law_merge_only_ours(base: model::Files, ours: model::Files)
    ensures
        agreed(base, ours, base) == ours,
        clash_paths(base, ours, base) == Set::<Seq<char>>::empty(),
{
    assert(agreed(base, ours, base) =~= ours);
    assert(clash_paths(base, ours, base) =~= Set::empty());
}

/// Where only their side changed, a merge takes their files, without any clash.
pub proof fn law_merge_only_theirs(base: model::Files, theirs: model::Files)
    ensures
        agreed(base, base, theirs) == theirs,
        clash_paths(base, base, theirs) == Set::<Seq<char>>::empty(),
{
    assert(agreed(base, base, theirs) =~= theirs);
    assert(clash_paths(base, base, theirs) =~= Set::empty());
}

/// Where both sides are the same, a merge gives what they have, without any clash.
pub proof fn law_merge_alike(base: model::Files, both: model::Files)
    ensures
        agreed(base, both, both) == both,
        clash_paths(base, both, both) == Set::<Seq<char>>::empty(),
{
    assert(agreed(base, both, both) =~= both);
    assert(clash_paths(base, both, both) =~= Set::empty());
}

/// The sides may change places: the same files stand, and the same paths clash.
pub proof fn law_merge_symmetric(base: model::Files, ours: model::Files, theirs: model::Files)
    ensures
        agreed(base, ours, theirs) == agreed(base, theirs, ours),
        clash_paths(base, ours, theirs) == clash_paths(base, theirs, ours),
{
    assert(agreed(base, ours, theirs) =~= agreed(base, theirs, ours));
    assert(clash_paths(base, ours, theirs) =~= clash_paths(base, theirs, ours));
}

/// A path that only one side changed comes out as that side has it, whatever clashes elsewhere.
pub proof fn law_merge_takes_each_change(base: model::Files, ours: model::Files, theirs: model::Files, p: Seq<char>)
    ensures
        at(theirs, p) == at(base, p) ==> at(agreed(base, ours, theirs), p) == at(ours, p) && !clash_paths(
            base,
            ours,
            theirs,
        ).contains(p),
        at(ours, p) == at(base, p) ==> at(agreed(base, ours, theirs), p) == at(theirs, p) && !clash_paths(
            base,
            ours,
            theirs,
        ).contains(p),
{
}

/// The merged files hold every settled file and, at each clash, the contents that were stored
/// for it.
pub proof fn law_merge_finished(settled: model::Files, paths: Seq<Seq<char>>, hashes: Seq<Seq<char>>)
    requires
        paths.len() == hashes.len(),
        paths.no_duplicates(),
    ensures
        forall|i: int|
            0 <= i < paths.len() ==> with_files(settled, paths, hashes).contains_key(#[trigger] paths[i])
                && with_files(settled, paths, hashes)[paths[i]] == hashes[i],
        forall|p: Seq<char>|
            !paths.contains(p) ==> at(#[trigger] with_files(settled, paths, hashes), p) == at(settled, p),
    decreases paths.len(),
{
    if paths.len() > 0 {
        let fp = paths.drop_last();
        let fh = hashes.drop_last();
        law_merge_finished(settled, fp, fh);
        let m = with_files(settled, fp, fh);
        assert(paths =~= fp.push(paths.last()));
        assert forall|i: int| 0 <= i < paths.len() implies with_files(settled, paths, hashes).contains_key(
            #[trigger] paths[i],
        ) && with_files(settled, paths, hashes)[paths[i]] == hashes[i] by {
            if i < paths.len() - 1 {
                assert(fp[i] == paths[i]);
                assert(paths[i] != paths.last());
            }
        }
        assert forall|p: Seq<char>| !paths.contains(p) implies at(
            #[trigger] with_files(settled, paths, hashes),
            p,
        ) == at(settled, p) by {
            strmap::lemma_push_contains(fp, paths.last(), p);
            assert(at(m, p) == at(settled, p));
        }
    }
}

/// No edit is lost in a clash: where the base and both sides differ from each other, text or not,
/// the contents hold ours and theirs in full, each as a block of its own between the conflict
/// markers. A block that does not end with a line break gets one.
pub proof fn law_clash_keeps_both_sides(path: Seq<char>, base: Option<Seq<u8>>, ours: Seq<u8>, theirs: Seq<u8>)
    requires
        ours != theirs,
        base != Some(ours),
        base != Some(theirs),
    ensures
        exists|a: Seq<u8>, b: Seq<u8>|
            {
                &&& a == ours || a == ours.push(10u8)
                &&& b == theirs || b == theirs.push(10u8)
                &&& a.len() > 0 && a.last() == 10u8
                &&& b.len() > 0 && b.last() == 10u8
                &&& ours.len() > 0 && ours.last() == 10u8 ==> a == ours
                &&& theirs.len() > 0 && theirs.last() == 10u8 ==> b == theirs
                &&& resolved(path, base, ours, theirs) == vstd::utf8::encode_utf8("<<<<<<< ours ("@ + path + ")\n"@)
                    + #[trigger] a.add(vstd::utf8::encode_utf8("=======\n"@)) + #[trigger] b.add(
                    vstd::utf8::encode_utf8(">>>>>>> theirs ("@ + path + ")\n"@),
                )
            },
{
    let a = if ours.len() > 0 && ours.last() == 10u8 {
        ours
    } else {
        ours.push(10u8)
    };
    let b = if theirs.len() > 0 && theirs.last() == 10u8 {
        theirs
    } else {
        theirs.push(10u8)
    };
    let head = vstd::utf8::encode_utf8("<<<<<<< ours ("@ + path + ")\n"@);
    let mid = vstd::utf8::encode_utf8("=======\n"@);
    let foot = vstd::utf8::encode_utf8(">>>>>>> theirs ("@ + path + ")\n"@);
    assert(resolved(path, base, ours, theirs) =~= head + a.add(mid) + b.add(foot));
}

/// A text that only one side edited comes out as that side has it, and one that both edited alike
/// as both have it.
pub proof fn law_text_takes_the_one_edit(path: Seq<char>, base: Seq<u8>, side: Seq<u8>)
    requires
        looks_like_text(base),
        looks_like_text(side),
    ensures
        resolved(path, Some(base), side, base) == side,
        resolved(path, Some(base), base, side) == side,
        resolved(path, Some(base), side, side) == side,
{
}

/// Of contents that are not text both sides stay, whatever the base held: what is not text is
/// resolved as if there had been no base.
pub proof fn law_binary_clash_ignores_the_base(path: Seq<char>, base: Seq<u8>, ours: Seq<u8>, theirs: Seq<u8>)
    requires
        !looks_like_text(base) || !looks_like_text(ours) || !looks_like_text(theirs),
    ensures
        resolved(path, Some(base), ours, theirs) == resolved(path, None, ours, theirs),
{
}

proof fn lemma_odd_count(b: Seq<u8>)
    ensures
        odd_count(b) == b.filter(|c: u8| c < 9 || (c > 13 && c < 32)).len(),
    decreases b.len(),
{
    let odd = |c: u8| c < 9 || (c > 13 && c < 32);
    reveal(Seq::filter);
    if b.len() > 0 {
        lemma_odd_count(b.drop_last());
    }
}

/// Text is what holds no zero byte, and of whose bytes less than two in a hundred are control
/// characters other than tab and the breaks of lines and pages. Nothing at all is text.
pub proof fn law_text_is_told_by_its_bytes(b: Seq<u8>)
    ensures
        b.contains(0u8) ==> !looks_like_text(b),
        b.len() == 0 ==> looks_like_text(b),
        b.len() > 0 && !b.contains(0u8) ==> (looks_like_text(b) <==> b.filter(
            |c: u8| c < 9 || (c > 13 && c < 32),
        ).len() * 100 < 2 * b.len()),
{
    lemma_odd_count(b);
    if b.len() > 0 {
        let n = (odd_count(b) * 100) as int;
        let d = b.len() as int;
        assert(n / d < 2 <==> n < 2 * d) by (nonlinear_arith)
            requires
                n >= 0,
                d > 0,
        ;
    }
}

/// What becomes of a path in a merge, from what the three sides have there: a clash where both
/// sides have different files of which neither is that of the base, and no other; else a file
/// stands where a side has it and did not take it over from a base that the other side dropped.
pub proof fn law_merge_settles_each_path(base: model::Files, ours: model::Files, theirs: model::Files, p: Seq<char>)
    requires
        base.dom().finite(),
        ours.dom().finite(),
        theirs.dom().finite(),
    ensures
        clash_paths(base, ours, theirs).finite(),
        clash_paths(base, ours, theirs).contains(p) <==> ours.contains_key(p) && theirs.contains_key(p) && ours[p]
            != theirs[p] && (base.contains_key(p) ==> base[p] != ours[p] && base[p] != theirs[p]),
        clash_paths(base, ours, theirs).contains(p) ==> !agreed(base, ours, theirs).contains_key(p),
        !ours.contains_key(p) && !theirs.contains_key(p) ==> !agreed(base, ours, theirs).contains_key(p),
        ours.contains_key(p) && theirs.contains_key(p) && ours[p] == theirs[p] ==> agreed(
            base,
            ours,
            theirs,
        ).contains_pair(p, ours[p]),
        ours.contains_key(p) && theirs.contains_key(p) && base.contains_pair(p, ours[p]) ==> agreed(
            base,
            ours,
            theirs,
        ).contains_pair(p, theirs[p]),
        ours.contains_key(p) && theirs.contains_key(p) && base.contains_pair(p, theirs[p]) ==> agreed(
            base,
            ours,
            theirs,
        ).contains_pair(p, ours[p]),
        ours.contains_key(p) && !theirs.contains_key(p) && !base.contains_pair(p, ours[p]) ==> agreed(
            base,
            ours,
            theirs,
        ).contains_pair(p, ours[p]),
        !ours.contains_key(p) && theirs.contains_key(p) && !base.contains_pair(p, theirs[p]) ==> agreed(
            base,
            ours,
            theirs,
        ).contains_pair(p, theirs[p]),
        ours.contains_key(p) && !theirs.contains_key(p) && base.contains_pair(p, ours[p]) ==> !agreed(
            base,
            ours,
            theirs,
        ).contains_key(p),
        !ours.contains_key(p) && theirs.contains_key(p) && base.contains_pair(p, theirs[p]) ==> !agreed(
            base,
            ours,
            theirs,
        ).contains_key(p),
{
}

/// Each clash is told with its path and the files that the three sides have there, in the order
/// of the paths.
pub proof fn law_clashes_tell_their_sides(
    paths: Seq<Seq<char>>,
    base: model::Files,
    ours: model::Files,
    theirs: model::Files,
    i: int,
)
    requires
        0 <= i < paths.len(),
    ensures
        clashes_at(paths, base, ours, theirs).len() == paths.len(),
        paths_of(clashes_at(paths, base, ours, theirs)) == paths,
        clashes_at(paths, base, ours, theirs)[i].ours == ours[paths[i]],
        clashes_at(paths, base, ours, theirs)[i].theirs == theirs[paths[i]],
        base.contains_key(paths[i]) ==> clashes_at(paths, base, ours, theirs)[i].base == Some(base[paths[i]]),
        !base.contains_key(paths[i]) ==> clashes_at(paths, base, ours, theirs)[i].base is None,
{
    assert(paths_of(clashes_at(paths, base, ours, theirs)) =~= paths);
}

/// The merged files are the settled ones, with what was stored for each clash at its path: no
/// other path changes.
pub proof fn law_merge_adds_only_the_clashes(settled: model::Files, paths: Seq<Seq<char>>, hashes: Seq<Seq<char>>, p: Seq<char>)
    requires
        paths.len() == hashes.len(),
        paths.no_duplicates(),
    ensures
        with_files(settled, paths, hashes).contains_key(p) <==> settled.contains_key(p) || paths.contains(p),
        settled.contains_key(p) && !paths.contains(p) ==> with_files(settled, paths, hashes)[p] == settled[p],
        forall|i: int| 0 <= i < paths.len() ==> with_files(settled, paths, hashes)[#[trigger] paths[i]] == hashes[i],
{
    law_merge_finished(settled, paths, hashes);
    if paths.contains(p) {
        let i = choose|i: int| 0 <= i < paths.len() && paths[i] == p;
        assert(with_files(settled, paths, hashes).contains_key(paths[i]));
    } else {
        assert(at(with_files(settled, paths, hashes), p) == at(settled, p));
    }
}

/// Contents of a path that both sides changed stand one after the other between the conflict
/// markers, whether or not they are text; and a merge of two texts gives them so exactly where
/// both changed, and not alike.
pub proof fn law_conflict_shows_both(path: Seq<char>, base: Seq<u8>, ours: Seq<u8>, theirs: Seq<u8>)
    ensures
        ours.len() > 0 && ours.last() == 10u8 && theirs.len() > 0 && theirs.last() == 10u8 ==> marked(path, ours, theirs)
            == vstd::utf8::encode_utf8("<<<<<<< ours ("@ + path + ")\n"@) + ours + vstd::utf8::encode_utf8("=======\n"@)
            + theirs + vstd::utf8::encode_utf8(">>>>>>> theirs ("@ + path + ")\n"@),
        ours.len() == 0 || ours.last() != 10u8 ==> marked(path, ours, theirs) == marked(path, ours.push(10u8), theirs),
        theirs.len() == 0 || theirs.last() != 10u8 ==> marked(path, ours, theirs) == marked(
            path,
            ours,
            theirs.push(10u8),
        ),
        ours != theirs && ours != base && theirs != base ==> text_merged(path, base, ours, theirs) == marked(
            path,
            ours,
            theirs,
        ),
        text_merged(path, base, base, theirs) == theirs,
        text_merged(path, base, ours, base) == ours,
        text_merged(path, base, ours, ours) == ours,
        resolved(path, None, ours, theirs) == marked(path, ours, theirs),
{
}

/// Lists of clashes and optional contents say what their members say.
pub proof fn law_clashes_say_their_fields(v: Seq<Clash>, c: Clash, b: Vec<u8>, i: int)
    ensures
        clash_views(v).len() == v.len(),
        0 <= i < v.len() ==> clash_views(v)[i] == v[i]@,
        c@.path == c.path@ && c@.ours == c.ours@ && c@.theirs == c.theirs@ && c@.base == model::opt_text(c.base),
        opt_bytes(Some(b)) == Some(b@),
        opt_bytes(None) is None,
{
}

} // verus!

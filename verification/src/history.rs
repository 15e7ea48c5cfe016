//! History: the line of first parents, the commit where two lines meet, and the commits that
//! a rebase carries over.

use vstd::prelude::*;
use vstd::string::*;

use crate::model;
use crate::model::{Commit, Commits, ROOT_COMMIT};
use crate::strmap::StrSet;
use crate::text;

verus! {

/// What `Commits` says.
pub type CommitsView = Map<Seq<char>, model::CommitView>;

/// Why a question about history has no answer.
#[derive(Clone, Debug, PartialEq, Eq)]
pub enum HistoryError {
    /// The commit cannot be read.
    Missing { id: String },
    /// A commit is among its own ancestors.
    Endless,
}

/// The line of first parents from `id` on, `id` itself first, as far as the commits can be
/// read, and no more than `fuel` of them.
pub open spec fn first_parents(c: CommitsView, id: Seq<char>, fuel: nat) -> Seq<Seq<char>>
    decreases fuel,
{
    if fuel == 0 || !c.contains_key(id) {
        Seq::empty()
    } else if c[id].parents.len() == 0 {
        seq![id]
    } else {
        seq![id] + first_parents(c, c[id].parents[0], (fuel - 1) as nat)
    }
}

/// The line of first parents from `id` on, no commit of it twice.
pub open spec fn line(c: CommitsView, id: Seq<char>) -> Seq<Seq<char>> {
    first_parents(c, id, c.dom().len())
}

/// The line of first parents from `id` on comes back to itself: it goes on after as many
/// commits as there are.
pub open spec fn endless(c: CommitsView, id: Seq<char>) -> bool {
    first_parents(c, id, c.dom().len() + 1).len() > c.dom().len()
}

/// The first text of `b` that is also in `a`.
pub open spec fn first_shared(a: Seq<Seq<char>>, b: Seq<Seq<char>>) -> Option<Seq<char>>
    decreases b.len(),
{
    if b.len() == 0 {
        None
    } else if a.contains(b[0]) {
        Some(b[0])
    } else {
        first_shared(a, b.drop_first())
    }
}

/// The line of first parents from `id` on, no more than `limit` commits of it.
pub fn first_parent_line(commits: &Commits, id: &str, limit: usize) -> (r: Vec<String>)
    ensures
        text::texts(r@) == first_parents(commits@, id@, limit as nat),
{
    let ghost goal = first_parents(commits@, id@, limit as nat);
    let mut out: Vec<String> = Vec::new();
    let mut cur = String::from_str(id);
    let mut left: usize = limit;
    assert(text::texts(out@) + first_parents(commits@, cur@, left as nat) =~= goal);
    while left > 0
        invariant
            left <= limit,
            goal == first_parents(commits@, id@, limit as nat),
            text::texts(out@) + first_parents(commits@, cur@, left as nat) == goal,
        decreases left,
    {
        let ghost before = text::texts(out@);
        match commits.get(cur.as_str()) {
            None => {
                assert(before =~= goal);
                return out;
            },
            Some(c) => {
                let ghost id0 = cur@;
                let ghost rest = first_parents(commits@, id0, left as nat);
                if c.parents.len() == 0 {
                    out.push(cur);
                    assert(text::texts(out@) =~= before + seq![id0]);
                    return out;
                }
                let next = c.parents[0].clone();
                assert(c@.parents[0] == next@);
                out.push(cur);
                cur = next;
                left = left - 1;
                proof {
                    assert(text::texts(out@) =~= before + seq![id0]);
                    assert(text::texts(out@) + first_parents(commits@, cur@, left as nat) =~= before + rest);
                }
            },
        }
    }
    assert(text::texts(out@) =~= goal);
    out
}

/// The line goes on after its last commit.
spec fn goes_on(c: CommitsView, l: Seq<Seq<char>>) -> bool {
    l.len() > 0 && c[l.last()].parents.len() > 0 && c.contains_key(c[l.last()].parents[0])
}

proof fn lemma_longer(c: CommitsView, id: Seq<char>, f: nat)
    ensures
        first_parents(c, id, f).len() <= f,
        first_parents(c, id, f + 1).len() > f <==> (f == 0 && c.contains_key(id)) || (first_parents(
            c,
            id,
            f,
        ).len() == f && goes_on(c, first_parents(c, id, f))),
    decreases f,
{
    if f == 0 {
        if c.contains_key(id) {
            assert(first_parents(c, id, 1).len() >= 1);
        }
    } else if c.contains_key(id) && c[id].parents.len() > 0 {
        let p = c[id].parents[0];
        lemma_longer(c, p, (f - 1) as nat);
        let rest = first_parents(c, p, (f - 1) as nat);
        let whole = seq![id] + rest;
        if f > 1 && rest.len() > 0 {
            assert(whole.last() == rest.last());
        } else if f == 1 {
            assert(whole =~= seq![id]);
            assert(whole.last() == id);
        }
    }
}

/// Whether the line of first parents from `id` on comes back to itself, given that line.
fn line_is_endless(commits: &Commits, id: &str, l: &Vec<String>) -> (r: bool)
    requires
        text::texts(l@) == line(commits@, id@),
    ensures
        r == endless(commits@, id@),
{
    let n = commits.len();
    proof {
        lemma_longer(commits@, id@, n as nat);
        if n == 0 {
            assert(commits@.dom() =~= Set::empty());
        }
    }
    if l.len() < n || n == 0 {
        return false;
    }
    let ghost lv = line(commits@, id@);
    assert(l@[l@.len() - 1]@ == lv.last());
    match commits.get(l[l.len() - 1].as_str()) {
        Some(c) => c.parents.len() > 0 && commits.contains_key(c.parents[0].as_str()),
        None => {
            proof {
                lemma_line_known(commits@, id@, n as nat);
                assert(lv.contains(lv.last()));
            }
            false
        },
    }
}

proof fn lemma_line_known(c: CommitsView, id: Seq<char>, f: nat)
    ensures
        forall|k: int| 0 <= k < first_parents(c, id, f).len() ==> c.contains_key(#[trigger] first_parents(c, id, f)[k]),
    decreases f,
{
    if f > 0 && c.contains_key(id) && c[id].parents.len() > 0 {
        let p = c[id].parents[0];
        lemma_line_known(c, p, (f - 1) as nat);
        let l = first_parents(c, id, f);
        assert forall|k: int| 0 <= k < l.len() implies c.contains_key(#[trigger] l[k]) by {
            if k > 0 {
                assert(l[k] == first_parents(c, p, (f - 1) as nat)[k - 1]);
            }
        }
    }
}

/// The commit nearest to `b` on its line of first parents that is also on the line of `a`.
/// There is no answer where a line comes back to itself before it gives one.
pub fn find_common_ancestor(commits: &Commits, a: &str, b: &str) -> (r: Result<Option<String>, HistoryError>)
    ensures
        r is Err <==> endless(commits@, a@) || (endless(commits@, b@) && first_shared(
            line(commits@, a@),
            line(commits@, b@),
        ) is None),
        r is Err ==> r->Err_0 == HistoryError::Endless,
        r matches Ok(found) ==> model::opt_text(found) == first_shared(
            line(commits@, a@),
            line(commits@, b@),
        ),
{
    let n = commits.len();
    let la = first_parent_line(commits, a, n);
    if line_is_endless(commits, a, &la) {
        return Err(HistoryError::Endless);
    }
    let ghost ta = text::texts(la@);
    let mut seen = StrSet::new();
    let mut i: usize = 0;
    while i < la.len()
        invariant
            i <= la@.len(),
            ta == text::texts(la@),
            forall|k: Seq<char>| #[trigger] seen@.contains(k) <==> ta.take(i as int).contains(k),
        decreases la@.len() - i,
    {
        let ghost before = seen@;
        seen.insert(la[i].clone());
        proof {
            assert(ta.take(i + 1) =~= ta.take(i as int).push(ta[i as int]));
            assert forall|k: Seq<char>| #[trigger] seen@.contains(k) <==> ta.take(i + 1).contains(k) by {
                crate::strmap::lemma_push_contains(ta.take(i as int), ta[i as int], k);
                assert(before.contains(k) <==> ta.take(i as int).contains(k));
            }
        }
        i = i + 1;
    }
    assert(ta.take(i as int) =~= ta);
    let lb = first_parent_line(commits, b, n);
    let ghost tb = text::texts(lb@);
    let mut j: usize = 0;
    assert(tb.skip(0) =~= tb);
    while j < lb.len()
        invariant
            j <= lb@.len(),
            ta == line(commits@, a@),
            tb == line(commits@, b@),
            tb == text::texts(lb@),
            !endless(commits@, a@),
            forall|k: Seq<char>| #[trigger] seen@.contains(k) <==> ta.contains(k),
            first_shared(ta, tb) == first_shared(ta, tb.skip(j as int)),
        decreases lb@.len() - j,
    {
        assert(tb.skip(j as int)[0] == lb@[j as int]@);
        if seen.contains(lb[j].as_str()) {
            return Ok(Some(lb[j].clone()));
        }
        assert(tb.skip(j as int).drop_first() =~= tb.skip(j + 1));
        j = j + 1;
    }
    if line_is_endless(commits, b, &lb) {
        return Err(HistoryError::Endless);
    }
    Ok(None)
}

/// The commit that a merge of `a` and `b`, or a rebase, starts from: where their lines meet,
/// or else the first commit of every repository.
pub open spec fn base_of(c: CommitsView, a: Seq<char>, b: Seq<char>) -> Seq<char> {
    match first_shared(line(c, a), line(c, b)) {
        Some(id) => id,
        None => ROOT_COMMIT@,
    }
}

/// The commit that a merge or a rebase starts from.
pub fn merge_base(commits: &Commits, a: &str, b: &str) -> (r: Result<String, HistoryError>)
    ensures
        r is Err <==> endless(commits@, a@) || (endless(commits@, b@) && first_shared(
            line(commits@, a@),
            line(commits@, b@),
        ) is None),
        r is Err ==> r->Err_0 == HistoryError::Endless,
        r matches Ok(id) ==> id@ == base_of(commits@, a@, b@),
{
    match find_common_ancestor(commits, a, b) {
        Ok(Some(id)) => Ok(id),
        Ok(None) => Ok(String::from_str(ROOT_COMMIT)),
        Err(e) => Err(e),
    }
}

// ---------------------------------------------------------------------------------------
// Laws
// ---------------------------------------------------------------------------------------
proof fn lemma_first_shared(a: Seq<Seq<char>>, b: Seq<Seq<char>>) -> (k: int)
    ensures
        match first_shared(a, b) {
            Some(x) => 0 <= k < b.len() && b[k] == x && a.contains(x) && forall|i: int|
                0 <= i < k ==> !a.contains(#[trigger] b[i]),
            None => forall|i: int| 0 <= i < b.len() ==> !a.contains(#[trigger] b[i]),
        },
    decreases b.len(),
{
    if b.len() == 0 || a.contains(b[0]) {
        0
    } else {
        let t = b.drop_first();
        let k = lemma_first_shared(a, t);
        match first_shared(a, b) {
            Some(x) => {
                assert forall|i: int| 0 <= i < k + 1 implies !a.contains(#[trigger] b[i]) by {
                    if i > 0 {
                        assert(b[i] == t[i - 1]);
                    }
                }
            },
            None => {
                assert forall|i: int| 0 <= i < b.len() implies !a.contains(#[trigger] b[i]) by {
                    if i > 0 {
                        assert(b[i] == t[i - 1]);
                    }
                }
            },
        }
        k + 1
    }
}

/// From any commit of a line on, the line is that commit's own line.
proof fn lemma_line_suffix(c: CommitsView, id: Seq<char>, f: nat, k: int)
    requires
        0 <= k < first_parents(c, id, f).len(),
    ensures
        first_parents(c, id, f).skip(k) == first_parents(c, first_parents(c, id, f)[k], (f - k) as nat),
        k < f,
    decreases k,
{
    let l = first_parents(c, id, f);
    if k == 0 {
        assert(l.skip(0) =~= l);
    } else {
        let p = c[id].parents[0];
        let rest = first_parents(c, p, (f - 1) as nat);
        lemma_line_suffix(c, p, (f - 1) as nat, k - 1);
        assert(l.skip(k) =~= rest.skip(k - 1));
        assert(l[k] == rest[k - 1]);
    }
}

/// A line that ends is the same whatever the fuel.
proof fn lemma_line_fuel(c: CommitsView, id: Seq<char>, f: nat, g: nat)
    requires
        f <= g,
        first_parents(c, id, f + 1).len() <= f,
    ensures
        first_parents(c, id, f) == first_parents(c, id, g),
    decreases f,
{
    if f > 0 && c.contains_key(id) && c[id].parents.len() > 0 {
        lemma_line_fuel(c, c[id].parents[0], (f - 1) as nat, (g - 1) as nat);
    }
}

proof fn lemma_same_rest(c: CommitsView, a: Seq<char>, b: Seq<char>, j: int, k: int)
    requires
        !endless(c, a),
        !endless(c, b),
        0 <= j < line(c, a).len(),
        0 <= k < line(c, b).len(),
        line(c, a)[j] == line(c, b)[k],
    ensures
        line(c, a).len() - j == line(c, b).len() - k,
{
    let n = c.dom().len();
    let m = n + n + 1;
    lemma_line_fuel(c, a, n, (m + j) as nat);
    lemma_line_fuel(c, b, n, (m + k) as nat);
    lemma_line_suffix(c, a, (m + j) as nat, j);
    lemma_line_suffix(c, b, (m + k) as nat, k);
    let x = line(c, a)[j];
    assert(line(c, a).skip(j) == first_parents(c, x, m));
    assert(line(c, b).skip(k) == first_parents(c, x, m));
    assert(line(c, a).skip(j).len() == line(c, a).len() - j);
    assert(line(c, b).skip(k).len() == line(c, b).len() - k);
}

/// Where two lines that end meet, they meet at the same commit seen from either side.
pub proof fn law_common_ancestor_symmetric(c: CommitsView, a: Seq<char>, b: Seq<char>)
    requires
        !endless(c, a),
        !endless(c, b),
    ensures
        first_shared(line(c, a), line(c, b)) == first_shared(line(c, b), line(c, a)),
{
    let la = line(c, a);
    let lb = line(c, b);
    let k = lemma_first_shared(la, lb);
    let j = lemma_first_shared(lb, la);
    match (first_shared(la, lb), first_shared(lb, la)) {
        (Some(x), Some(y)) => {
            let j2 = choose|i: int| 0 <= i < la.len() && la[i] == x;
            let k2 = choose|i: int| 0 <= i < lb.len() && lb[i] == y;
            lemma_same_rest(c, a, b, j2, k);
            lemma_same_rest(c, a, b, j, k2);
            assert(lb.contains(x)) by {
                assert(lb[k] == x);
            }
            assert(la.contains(y)) by {
                assert(la[j] == y);
            }
            if j2 < j {
                assert(!lb.contains(la[j2]));
            }
            if k2 < k {
                assert(!la.contains(lb[k2]));
            }
        },
        (Some(x), None) => {
            let j2 = choose|i: int| 0 <= i < la.len() && la[i] == x;
            assert(lb.contains(la[j2])) by {
                assert(lb[k] == x);
            }
        },
        (None, Some(y)) => {
            let k2 = choose|i: int| 0 <= i < lb.len() && lb[i] == y;
            assert(la.contains(lb[k2])) by {
                assert(la[j] == y);
            }
        },
        (None, None) => {},
    }
}

/// The common ancestor is on both lines, and no commit before it on the line of `b` is on
/// the line of `a`.
pub proof fn law_common_ancestor_nearest(c: CommitsView, a: Seq<char>, b: Seq<char>)
    ensures
        match first_shared(line(c, a), line(c, b)) {
            Some(x) => line(c, a).contains(x) && exists|k: int|
                {
                    &&& 0 <= k < line(c, b).len()
                    &&& #[trigger] line(c, b)[k] == x
                    &&& forall|i: int| 0 <= i < k ==> !line(c, a).contains(#[trigger] line(c, b)[i])
                },
            None => forall|i: int|
                0 <= i < line(c, b).len() ==> !line(c, a).contains(#[trigger] line(c, b)[i]),
        },
{
    let k = lemma_first_shared(line(c, a), line(c, b));
}

/// A commit is its own common ancestor with any commit whose line it is on.
pub proof fn law_ancestor_of_descendant(c: CommitsView, a: Seq<char>, b: Seq<char>)
    requires
        line(c, a).contains(b),
    ensures
        first_shared(line(c, a), line(c, b)) == Some(b),
{
    let j = choose|j: int| 0 <= j < line(c, a).len() && line(c, a)[j] == b;
    lemma_line_known(c, a, c.dom().len());
    lemma_longer(c, b, c.dom().len());
    assert(c.contains_key(b));
    assert(c.dom().len() > 0);
    assert(line(c, b)[0] == b);
}

// ---------------------------------------------------------------------------------------
// What a rebase carries over
// ---------------------------------------------------------------------------------------
/// The commits between a commit and its base, or why they cannot be told.
pub enum ChainView {
    Done(Seq<Seq<char>>),
    Missing(Seq<char>),
    Endless,
}

/// The commits on the line of first parents from `cur` on, up to but without `base`, or to
/// the end of the line. At most `fuel` steps are taken.
pub open spec fn chain_to(c: CommitsView, cur: Seq<char>, base: Seq<char>, fuel: nat) -> ChainView
    decreases fuel,
{
    if cur == base {
        ChainView::Done(Seq::empty())
    } else if !c.contains_key(cur) {
        ChainView::Missing(cur)
    } else if c[cur].parents.len() == 0 {
        ChainView::Done(seq![cur])
    } else if fuel == 0 {
        ChainView::Endless
    } else {
        match chain_to(c, c[cur].parents[0], base, (fuel - 1) as nat) {
            ChainView::Done(s) => ChainView::Done(seq![cur] + s),
            other => other,
        }
    }
}

/// What the commits `ids` say, the last of them first.
pub open spec fn oldest_first(c: CommitsView, ids: Seq<Seq<char>>) -> Seq<model::CommitView> {
    Seq::new(ids.len(), |i: int| c[ids[ids.len() - 1 - i]])
}

/// `front` before what `rest` says.
spec fn chain_after(front: Seq<Seq<char>>, rest: ChainView) -> ChainView {
    match rest {
        ChainView::Done(s) => ChainView::Done(
            if s.len() == 0 {
                front
            } else {
                front + s
            },
        ),
        other => other,
    }
}

/// The commits that stand between `base` and `head`, the oldest first.
pub fn rebase_chain(commits: &Commits, head: &str, base: &str) -> (r: Result<Vec<Commit>, HistoryError>)
    ensures
        match chain_to(commits@, head@, base@, commits@.dom().len()) {
            ChainView::Done(ids) => r is Ok && model::commit_views(r->Ok_0@) == oldest_first(
                commits@,
                ids,
            ),
            ChainView::Missing(id) => r is Err && r->Err_0 is Missing && r->Err_0->id@ == id,
            ChainView::Endless => r is Err && r->Err_0 is Endless,
        },
{
    let ghost goal = chain_to(commits@, head@, base@, commits@.dom().len());
    let mut found: Vec<String> = Vec::new();
    let mut cur = String::from_str(head);
    let mut left: usize = commits.len();
    let ghost none = Seq::<Seq<char>>::empty();
    proof {
        match goal {
            ChainView::Done(s) => {
                assert(none + s =~= s);
                assert(s.len() == 0 ==> none =~= s);
            },
            _ => {},
        }
        assert(text::texts(found@) =~= none);
    }
    while !text::str_eq(cur.as_str(), base)
        invariant_except_break
            chain_after(text::texts(found@), chain_to(commits@, cur@, base@, left as nat)) == goal,
        invariant
            goal == chain_to(commits@, head@, base@, commits@.dom().len()),
            forall|i: int| 0 <= i < found@.len() ==> commits@.contains_key((#[trigger] found@[i])@),
        ensures
            goal == ChainView::Done(text::texts(found@)),
            forall|i: int| 0 <= i < found@.len() ==> commits@.contains_key((#[trigger] found@[i])@),
        decreases left,
    {
        let ghost before = text::texts(found@);
        let ghost id0 = cur@;
        match commits.get(cur.as_str()) {
            None => {
                return Err(HistoryError::Missing { id: cur });
            },
            Some(c) => {
                if c.parents.len() == 0 {
                    found.push(cur);
                    assert(text::texts(found@) =~= before + seq![id0]);
                    break;
                }
                if left == 0 {
                    return Err(HistoryError::Endless);
                }
                let next = c.parents[0].clone();
                assert(c@.parents[0] == next@);
                found.push(cur);
                cur = next;
                left = left - 1;
                proof {
                    assert(text::texts(found@) =~= before + seq![id0]);
                    let rest = chain_to(commits@, cur@, base@, left as nat);
                    match rest {
                        ChainView::Done(s) => {
                            assert(before + (seq![id0] + s) =~= text::texts(found@) + s);
                            assert(text::texts(found@) + s =~= text::texts(found@) || s.len() > 0);
                        },
                        _ => {},
                    }
                }
            },
        }
    }
    let ghost ids = text::texts(found@);
    let mut out: Vec<Commit> = Vec::new();
    let mut k: usize = found.len();
    while k > 0
        invariant
            k <= found@.len(),
            ids == text::texts(found@),
            goal == ChainView::Done(ids),
            forall|i: int| 0 <= i < found@.len() ==> commits@.contains_key((#[trigger] found@[i])@),
            model::commit_views(out@) == oldest_first(commits@, ids).take(ids.len() - k),
        decreases k,
    {
        let ghost before = model::commit_views(out@);
        assert(commits@.contains_key(found@[k - 1]@));
        match commits.get(found[k - 1].as_str()) {
            Some(c) => {
                out.push(c.copy());
                proof {
                    let all = oldest_first(commits@, ids);
                    assert(ids[k - 1] == found@[k - 1]@);
                    assert(all[ids.len() - k] == c@);
                    assert(model::commit_views(out@) =~= before.push(c@));
                    assert(all.take(ids.len() - k + 1) =~= all.take(ids.len() - k).push(c@));
                }
            },
            None => {},
        }
        k = k - 1;
    }
    assert(oldest_first(commits@, ids).take(ids.len() as int) =~= oldest_first(commits@, ids));
    Ok(out)
}

proof fn lemma_chain_prefix(c: CommitsView, cur: Seq<char>, base: Seq<char>, f: nat, fuel: nat, k: int)
    requires
        0 <= k < first_parents(c, cur, f).len(),
        first_parents(c, cur, f)[k] == base,
        forall|i: int| 0 <= i < k ==> #[trigger] first_parents(c, cur, f)[i] != base,
        k <= fuel,
    ensures
        chain_to(c, cur, base, fuel) == ChainView::Done(first_parents(c, cur, f).take(k)),
    decreases k,
{
    let l = first_parents(c, cur, f);
    assert(l[0] == cur);
    if k == 0 {
        assert(l.take(0) =~= Seq::empty());
    } else {
        let p = c[cur].parents[0];
        let rest = first_parents(c, p, (f - 1) as nat);
        assert forall|i: int| 0 <= i < k - 1 implies #[trigger] rest[i] != base by {
            assert(l[i + 1] == rest[i]);
        }
        assert(l[k] == rest[k - 1]);
        lemma_chain_prefix(c, p, base, (f - 1) as nat, (fuel - 1) as nat, k - 1);
        assert(seq![cur] + rest.take(k - 1) =~= l.take(k));
    }
}

proof fn lemma_first_index(s: Seq<Seq<char>>, x: Seq<char>) -> (k: int)
    requires
        s.contains(x),
    ensures
        0 <= k < s.len(),
        s[k] == x,
        forall|i: int| 0 <= i < k ==> #[trigger] s[i] != x,
    decreases s.len(),
{
    if s[0] == x {
        0
    } else {
        let t = s.drop_first();
        let j = choose|j: int| 0 <= j < s.len() && s[j] == x;
        assert(t[j - 1] == x);
        let k = lemma_first_index(t, x);
        assert forall|i: int| 0 <= i < k + 1 implies #[trigger] s[i] != x by {
            if i > 0 {
                assert(s[i] == t[i - 1]);
            }
        }
        k + 1
    }
}

/// Where the lines of `head` and `onto` meet, a rebase carries over exactly the commits of the
/// line of `head` before the meeting point.
pub proof fn law_rebase_carries_line(c: CommitsView, head: Seq<char>, onto: Seq<char>)
    requires
        first_shared(line(c, head), line(c, onto)) is Some,
    ensures
        exists|k: int|
            {
                &&& 0 <= k < line(c, head).len()
                &&& #[trigger] line(c, head)[k] == base_of(c, head, onto)
                &&& chain_to(c, head, base_of(c, head, onto), c.dom().len()) == ChainView::Done(
                    line(c, head).take(k),
                )
            },
{
    let base = base_of(c, head, onto);
    let j = lemma_first_shared(line(c, head), line(c, onto));
    let k = lemma_first_index(line(c, head), base);
    lemma_longer(c, head, c.dom().len());
    lemma_chain_prefix(c, head, base, c.dom().len(), c.dom().len(), k);
}

/// The commit whose files a carried-over commit is compared with: its first parent, or the
/// base where it has none.
pub open spec fn compared_with(c: model::CommitView, base: Seq<char>) -> Seq<char> {
    if c.parents.len() > 0 {
        c.parents[0]
    } else {
        base
    }
}

/// The commit whose files a carried-over commit is compared with.
pub fn old_parent(c: &Commit, base: &str) -> (r: String)
    ensures
        r@ == compared_with(c@, base@),
{
    if c.parents.len() > 0 {
        assert(c@.parents[0] == c.parents@[0]@);
        c.parents[0].clone()
    } else {
        String::from_str(base)
    }
}

/// The commit that a log goes on with after `c`, where `left` commits are still to be shown,
/// `c` among them.
pub fn log_next(c: &Commit, left: usize) -> (r: Option<String>)
    ensures
        model::opt_text(r) == (if left > 1 && c@.parents.len() > 0 {
            Some(c@.parents[0])
        } else {
            None
        }),
{
    if left > 1 && c.parents.len() > 0 {
        assert(c@.parents[0] == c.parents@[0]@);
        Some(c.parents[0].clone())
    } else {
        None
    }
}

// ---------------------------------------------------------------------------------------
// Laws of the line
// ---------------------------------------------------------------------------------------
/// The steps of a line of first parents.
pub proof fn lemma_line_steps(c: CommitsView, id: Seq<char>, f: nat)
    ensures
        first_parents(c, id, f).len() <= f,
        f > 0 && c.contains_key(id) ==> first_parents(c, id, f).len() > 0 && first_parents(c, id, f)[0] == id,
        !c.contains_key(id) ==> first_parents(c, id, f).len() == 0,
        forall|i: int|
            0 <= i < first_parents(c, id, f).len() ==> c.contains_key(#[trigger] first_parents(c, id, f)[i]),
        forall|i: int|
            0 <= i < first_parents(c, id, f).len() - 1 ==> c[#[trigger] first_parents(c, id, f)[i]].parents.len() > 0
                && first_parents(c, id, f)[i + 1] == c[first_parents(c, id, f)[i]].parents[0],
        0 < first_parents(c, id, f).len() < f ==> {
            let last = c[first_parents(c, id, f).last()];
            last.parents.len() == 0 || !c.contains_key(last.parents[0])
        },
    decreases f,
{
    let l = first_parents(c, id, f);
    if f > 0 && c.contains_key(id) && c[id].parents.len() > 0 {
        let next = c[id].parents[0];
        let r = first_parents(c, next, (f - 1) as nat);
        lemma_line_steps(c, next, (f - 1) as nat);
        assert forall|i: int| 0 <= i < l.len() implies c.contains_key(#[trigger] l[i]) by {
            if i > 0 {
                assert(l[i] == r[i - 1]);
            }
        }
        assert forall|i: int| 0 <= i < l.len() - 1 implies c[#[trigger] l[i]].parents.len() > 0 && l[i + 1]
            == c[l[i]].parents[0] by {
            if i > 0 {
                assert(l[i] == r[i - 1]);
                assert(l[i + 1] == r[i]);
            } else {
                assert(l[1] == r[0]);
            }
        }
        if r.len() > 0 {
            assert(l.last() == r.last());
        }
    }
}

/// The line of a commit goes from it to the first parent of each commit in turn, and ends only
/// where there is no parent or it cannot be read, unless the line comes back to itself.
pub proof fn law_line_follows_first_parents(c: CommitsView, id: Seq<char>)
    requires
        c.dom().finite(),
    ensures
        c.contains_key(id) ==> line(c, id).len() > 0 && line(c, id)[0] == id,
        !c.contains_key(id) ==> line(c, id).len() == 0,
        forall|i: int| 0 <= i < line(c, id).len() ==> c.contains_key(#[trigger] line(c, id)[i]),
        forall|i: int|
            0 <= i < line(c, id).len() - 1 ==> c[#[trigger] line(c, id)[i]].parents.len() > 0 && line(c, id)[i + 1]
                == c[line(c, id)[i]].parents[0],
        line(c, id).len() > 0 && !endless(c, id) ==> c[line(c, id).last()].parents.len() == 0 || !c.contains_key(
            c[line(c, id).last()].parents[0],
        ),
        endless(c, id) ==> line(c, id).len() == c.dom().len() && (line(c, id).len() > 0 ==> c[line(
            c,
            id,
        ).last()].parents.len() > 0 && c.contains_key(c[line(c, id).last()].parents[0])),
{
    let n = c.dom().len();
    lemma_line_steps(c, id, n);
    lemma_longer(c, id, n);
    if c.contains_key(id) {
        assert(c.dom().contains(id));
        assert(n > 0);
    }
}

/// A merge or rebase starts at the commit where the lines meet, and where they do not at the first
/// commit of every repository.
pub proof fn law_base_is_shared_or_first(c: CommitsView, a: Seq<char>, b: Seq<char>)
    ensures
        (forall|x: Seq<char>| #[trigger] line(c, b).contains(x) ==> !line(c, a).contains(x)) ==> base_of(c, a, b)
            == "cmt_0000000"@,
        (exists|x: Seq<char>| #[trigger] line(c, b).contains(x) && line(c, a).contains(x)) ==> line(c, a).contains(
            base_of(c, a, b),
        ) && line(c, b).contains(base_of(c, a, b)),
{
    law_common_ancestor_nearest(c, a, b);
    let la = line(c, a);
    let lb = line(c, b);
    match first_shared(la, lb) {
        Some(x) => {
            let k = choose|k: int|
                {
                    &&& 0 <= k < lb.len()
                    &&& #[trigger] lb[k] == x
                    &&& forall|i: int| 0 <= i < k ==> !la.contains(#[trigger] lb[i])
                };
            assert(lb.contains(x));
        },
        None => {
            if exists|x: Seq<char>| #[trigger] lb.contains(x) && la.contains(x) {
                let x = choose|x: Seq<char>| #[trigger] lb.contains(x) && la.contains(x);
                let i = choose|i: int| 0 <= i < lb.len() && lb[i] == x;
                assert(!la.contains(lb[i]));
            }
        },
    }
}

/// What is carried over begins with the commit itself and follows first parents, without the base,
/// up to a commit whose parent is the base or that has none.
pub proof fn law_carried_commits_lead_to_the_base(c: CommitsView, cur: Seq<char>, base: Seq<char>, fuel: nat)
    requires
        chain_to(c, cur, base, fuel) is Done,
    ensures
        ({
            let s = chain_to(c, cur, base, fuel)->Done_0;
            &&& s.len() == 0 <==> cur == base
            &&& s.len() > 0 ==> s[0] == cur
            &&& forall|i: int| 0 <= i < s.len() ==> c.contains_key(#[trigger] s[i]) && s[i] != base
            &&& forall|i: int|
                0 <= i < s.len() - 1 ==> c[#[trigger] s[i]].parents.len() > 0 && s[i + 1] == c[s[i]].parents[0]
            &&& s.len() > 0 ==> c[s.last()].parents.len() == 0 || c[s.last()].parents[0] == base
        }),
    decreases fuel,
{
    if cur != base && c.contains_key(cur) && c[cur].parents.len() > 0 && fuel > 0 {
        let next = c[cur].parents[0];
        law_carried_commits_lead_to_the_base(c, next, base, (fuel - 1) as nat);
        let r = chain_to(c, next, base, (fuel - 1) as nat)->Done_0;
        let s = chain_to(c, cur, base, fuel)->Done_0;
        assert(s =~= seq![cur] + r);
        assert forall|i: int| 0 <= i < s.len() implies c.contains_key(#[trigger] s[i]) && s[i] != base by {
            if i > 0 {
                assert(s[i] == r[i - 1]);
            }
        }
        assert forall|i: int| 0 <= i < s.len() - 1 implies c[#[trigger] s[i]].parents.len() > 0 && s[i + 1]
            == c[s[i]].parents[0] by {
            if i > 0 {
                assert(s[i] == r[i - 1]);
            }
            assert(s[i + 1] == r[i]);
        }
        if r.len() > 0 {
            assert(s.last() == r.last());
        }
    }
}

/// Commits are carried over from the oldest on: in the reverse of the order in which the line
/// comes to them.
pub proof fn law_oldest_commit_comes_first(c: CommitsView, ids: Seq<Seq<char>>)
    ensures
        oldest_first(c, ids) == ids.reverse().map_values(|id: Seq<char>| c[id]),
{
    assert(oldest_first(c, ids) =~= ids.reverse().map_values(|id: Seq<char>| c[id]));
}

/// A carried-over commit is compared with its first parent, and with the base where it has none.
pub proof fn law_compared_with_the_first_parent(c: model::CommitView, base: Seq<char>)
    ensures
        c.parents.len() > 0 ==> compared_with(c, base) == c.parents[0],
        c.parents.len() == 0 ==> compared_with(c, base) == base,
{
}

/// Where the base is not on the line of a commit, the whole line is carried over, if it ends with a
/// commit that has no parent; and if it ends because a parent cannot be read, that parent is named,
/// unless it is the base.
pub proof fn law_whole_line_is_carried_over(c: CommitsView, cur: Seq<char>, base: Seq<char>, fuel: nat)
    requires
        first_parents(c, cur, fuel).len() > 0,
        !first_parents(c, cur, fuel).contains(base),
    ensures
        ({
            let l = first_parents(c, cur, fuel);
            let last = c[l.last()];
            &&& last.parents.len() == 0 ==> chain_to(c, cur, base, fuel) == ChainView::Done(l)
            &&& last.parents.len() > 0 && last.parents[0] == base ==> chain_to(c, cur, base, fuel) == ChainView::Done(l)
            &&& last.parents.len() > 0 && last.parents[0] != base && !c.contains_key(last.parents[0]) ==> chain_to(
                c,
                cur,
                base,
                fuel,
            ) == ChainView::Missing(last.parents[0])
        }),
    decreases fuel,
{
    let l = first_parents(c, cur, fuel);
    assert(l[0] == cur);
    assert(cur != base) by {
        if cur == base {
            assert(l.contains(base));
        }
    }
    if c[cur].parents.len() > 0 {
        let next = c[cur].parents[0];
        let r = first_parents(c, next, (fuel - 1) as nat);
        assert(l =~= seq![cur] + r);
        if r.len() > 0 {
            assert(!r.contains(base)) by {
                if r.contains(base) {
                    let k = choose|k: int| 0 <= k < r.len() && r[k] == base;
                    assert(l[k + 1] == base);
                }
            }
            law_whole_line_is_carried_over(c, next, base, (fuel - 1) as nat);
            assert(l.last() == r.last());
        } else {
            assert(l.last() == cur);
            assert(l =~= seq![cur]);
            assert(seq![cur] + Seq::<Seq<char>>::empty() =~= seq![cur]);
        }
    }
}

} // verus!

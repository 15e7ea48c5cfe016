//! Walking a graph whose nodes are named by texts: commits and their parents, trees and the
//! trees inside them.

use vstd::prelude::*;
use vstd::string::*;

use crate::strmap::{StrMap, StrSet};
use crate::text;

verus! {

/// What a node leads to.
#[derive(Debug)]
pub struct Links {
    pub to: Vec<String>,
}

impl View for Links {
    type V = Seq<Seq<char>>;

    open spec fn view(&self) -> Seq<Seq<char>> {
        text::texts(self.to@)
    }
}

/// The nodes that are known, and what each leads to.
pub type Graph = StrMap<Links>;

/// What a `Graph` says.
pub type GraphView = Map<Seq<char>, Seq<Seq<char>>>;

/// The nodes in the order in which a walk comes to them that takes the last node of `stack`
/// first, and leaves out those of `seen`. A node that is not known leads nowhere, and counts
/// each time that the walk comes to it.
pub open spec fn walk_order(g: GraphView, stack: Seq<Seq<char>>, seen: Set<Seq<char>>) -> Seq<Seq<char>>
    decreases g.dom().difference(seen).len(), stack.len(),
    when g.dom().finite()
{
    if stack.len() == 0 {
        Seq::empty()
    } else {
        let id = stack.last();
        let rest = stack.drop_last();
        if seen.contains(id) {
            walk_order(g, rest, seen)
        } else if !g.contains_key(id) {
            seq![id] + walk_order(g, rest, seen)
        } else {
            proof {
                lemma_unseen_shrinks(g, seen, id);
            }
            seq![id] + walk_order(g, rest + g[id], seen.insert(id))
        }
    }
}

/// Seeing one more of the known nodes leaves fewer to be seen.
pub proof fn lemma_unseen_shrinks(g: GraphView, seen: Set<Seq<char>>, id: Seq<char>)
    requires
        g.dom().finite(),
        g.contains_key(id),
        !seen.contains(id),
    ensures
        g.dom().difference(seen.insert(id)).len() < g.dom().difference(seen).len(),
{
    let a = g.dom().difference(seen);
    let b = g.dom().difference(seen.insert(id));
    assert(b =~= a.remove(id));
    assert(a.contains(id));
}

/// The nodes that a walk from `roots` comes to, in its order.
pub open spec fn visited(g: GraphView, roots: Seq<Seq<char>>) -> Seq<Seq<char>> {
    walk_order(g, roots, Set::empty())
}

/// Walks the graph from `roots` on.
pub fn walk_graph(g: &Graph, roots: &Vec<String>) -> (r: Vec<String>)
    ensures
        text::texts(r@) == visited(g@, text::texts(roots@)),
{
    let _n = g.len();
    let ghost goal = visited(g@, text::texts(roots@));
    let mut stack: Vec<String> = crate::model::copy_texts(roots);
    let mut seen = StrSet::new();
    let mut done: Vec<String> = Vec::new();
    assert(text::texts(done@) + walk_order(g@, text::texts(stack@), seen@) =~= goal);
    loop
        invariant
            g@.dom().finite(),
            goal == visited(g@, text::texts(roots@)),
            text::texts(done@) + walk_order(g@, text::texts(stack@), seen@) == goal,
        decreases g@.dom().difference(seen@).len(), stack@.len(),
    {
        let ghost st = text::texts(stack@);
        let ghost before = text::texts(done@);
        let ghost s0 = seen@;
        match stack.pop() {
            None => {
                assert(st =~= Seq::empty());
                assert(text::texts(done@) =~= goal);
                return done;
            },
            Some(id) => {
                assert(st.last() == id@);
                assert(st.drop_last() =~= text::texts(stack@));
                if !seen.contains(id.as_str()) {
                    match g.get(id.as_str()) {
                        Some(links) => {
                            let n = links.to.len();
                            let mut i: usize = 0;
                            let ghost rest = text::texts(stack@);
                            assert(rest + links@.take(0) =~= rest);
                            while i < n
                                invariant
                                    i <= n == links.to@.len(),
                                    text::texts(stack@) == rest + links@.take(i as int),
                                decreases n - i,
                            {
                                let ghost s = text::texts(stack@);
                                stack.push(links.to[i].clone());
                                proof {
                                    assert(text::texts(stack@) =~= s.push(links@[i as int]));
                                    assert(links@.take(i + 1) =~= links@.take(i as int).push(
                                        links@[i as int],
                                    ));
                                    assert((rest + links@.take(i as int)).push(links@[i as int]) =~= rest
                                        + links@.take(i + 1));
                                }
                                i = i + 1;
                            }
                            proof {
                                assert(links@.take(i as int) =~= links@);
                                lemma_unseen_shrinks(g@, s0, id@);
                            }
                            seen.insert(id.clone());
                        },
                        None => {},
                    }
                    done.push(id);
                    proof {
                        assert(text::texts(done@) =~= before + seq![id@]);
                        assert(text::texts(done@) + walk_order(g@, text::texts(stack@), seen@) =~= before
                            + (seq![id@] + walk_order(g@, text::texts(stack@), seen@)));
                    }
                }
            },
        }
    }
}

// ---------------------------------------------------------------------------------------
// Reachability
// ---------------------------------------------------------------------------------------
/// Each node of `p` leads to the next.
pub open spec fn is_path(g: GraphView, p: Seq<Seq<char>>) -> bool {
    &&& p.len() > 0
    &&& forall|i: int|
        0 <= i < p.len() - 1 ==> g.contains_key(#[trigger] p[i]) && g[p[i]].contains(p[i + 1])
}

/// A path leads from one of `roots` to `x`.
pub open spec fn reaches(g: GraphView, roots: Seq<Seq<char>>, x: Seq<char>) -> bool {
    exists|p: Seq<Seq<char>>| #[trigger] is_path(g, p) && roots.contains(p[0]) && p.last() == x
}

proof fn lemma_walk_reaches(g: GraphView, stack: Seq<Seq<char>>, seen: Set<Seq<char>>, x: Seq<char>)
    requires
        g.dom().finite(),
        walk_order(g, stack, seen).contains(x),
    ensures
        reaches(g, stack, x),
    decreases g.dom().difference(seen).len(), stack.len(),
{
    if stack.len() == 0 {
        return;
    }
    let id = stack.last();
    let rest = stack.drop_last();
    assert(stack.contains(id));
    let tail = if seen.contains(id) || !g.contains_key(id) {
        walk_order(g, rest, seen)
    } else {
        walk_order(g, rest + g[id], seen.insert(id))
    };
    if !seen.contains(id) {
        let whole = seq![id] + tail;
        let k = choose|k: int| 0 <= k < whole.len() && whole[k] == x;
        if k == 0 {
            assert(is_path(g, seq![id]));
            assert(seq![id].last() == x);
            return;
        }
        assert(tail[k - 1] == x);
    }
    assert(tail.contains(x));
    if seen.contains(id) || !g.contains_key(id) {
        lemma_walk_reaches(g, rest, seen, x);
        let p = choose|p: Seq<Seq<char>>| #[trigger] is_path(g, p) && rest.contains(p[0]) && p.last() == x;
        let k = choose|k: int| 0 <= k < rest.len() && rest[k] == p[0];
        assert(stack[k] == p[0]);
    } else {
        lemma_unseen_shrinks(g, seen, id);
        let more = rest + g[id];
        lemma_walk_reaches(g, more, seen.insert(id), x);
        let p = choose|p: Seq<Seq<char>>| #[trigger] is_path(g, p) && more.contains(p[0]) && p.last() == x;
        let k = choose|k: int| 0 <= k < more.len() && more[k] == p[0];
        if k < rest.len() {
            assert(stack[k] == p[0]);
        } else {
            assert(g[id][k - rest.len()] == p[0]);
            let q = seq![id] + p;
            assert forall|i: int| 0 <= i < q.len() - 1 implies g.contains_key(#[trigger] q[i]) && g[q[i]].contains(q[i + 1]) by {
                if i == 0 {
                    assert(q[1] == p[0]);
                } else {
                    assert(q[i] == p[i - 1] && q[i + 1] == p[i]);
                }
            }
            assert(is_path(g, q));
            assert(q.last() == x);
        }
    }
}

/// No node of `p` is in `seen`.
spec fn avoids(p: Seq<Seq<char>>, seen: Set<Seq<char>>) -> bool {
    forall|i: int| 0 <= i < p.len() ==> !seen.contains(#[trigger] p[i])
}

/// The last position of `id` in `p`, or -1.
spec fn last_at(p: Seq<Seq<char>>, id: Seq<char>) -> int
    decreases p.len(),
{
    if p.len() == 0 {
        -1
    } else if p.last() == id {
        p.len() - 1
    } else {
        last_at(p.drop_last(), id)
    }
}

proof fn lemma_last_at(p: Seq<Seq<char>>, id: Seq<char>)
    ensures
        -1 <= last_at(p, id) < p.len(),
        last_at(p, id) >= 0 ==> p[last_at(p, id)] == id,
        forall|i: int| last_at(p, id) < i < p.len() ==> p[i] != id,
    decreases p.len(),
{
    if p.len() > 0 && p.last() != id {
        lemma_last_at(p.drop_last(), id);
        assert forall|i: int| last_at(p, id) < i < p.len() implies p[i] != id by {
            if i < p.len() - 1 {
                assert(p.drop_last()[i] == p[i]);
            }
        }
    }
}

#[verifier::spinoff_prover]
#[verifier::rlimit(60)]
proof fn lemma_reaches_walk(g: GraphView, stack: Seq<Seq<char>>, seen: Set<Seq<char>>, p: Seq<Seq<char>>)
    requires
        g.dom().finite(),
        is_path(g, p),
        stack.contains(p[0]),
        avoids(p, seen),
    ensures
        walk_order(g, stack, seen).contains(p.last()),
    decreases g.dom().difference(seen).len(), stack.len(),
{
    let id = stack.last();
    let rest = stack.drop_last();
    let x = p.last();
    let s = choose|s: int| 0 <= s < stack.len() && stack[s] == p[0];
    if p[0] != id {
        assert(rest[s] == p[0]);
        assert(rest.contains(p[0]));
    }
    if seen.contains(id) {
        lemma_reaches_walk(g, rest, seen, p);
        return;
    }
    let whole = walk_order(g, stack, seen);
    if x == id {
        assert(whole[0] == id);
        return;
    }
    if !g.contains_key(id) {
        if p[0] == id {
            assert(p.len() == 1);
        } else {
            lemma_reaches_walk(g, rest, seen, p);
            let tail = walk_order(g, rest, seen);
            let k = choose|k: int| 0 <= k < tail.len() && tail[k] == x;
            assert(whole[k + 1] == x);
        }
    } else {
        lemma_unseen_shrinks(g, seen, id);
        let more = rest + g[id];
        lemma_last_at(p, id);
        let j = last_at(p, id);
        let q = p.skip(j + 1);
        assert(q.last() == x);
        assert forall|i: int| 0 <= i < q.len() - 1 implies g.contains_key(#[trigger] q[i]) && g[q[i]].contains(q[i + 1]) by {
            assert(q[i] == p[i + j + 1] && q[i + 1] == p[i + j + 2]);
        }
        assert(is_path(g, q));
        assert(avoids(q, seen.insert(id))) by {
            assert forall|i: int| 0 <= i < q.len() implies !seen.insert(id).contains(#[trigger] q[i]) by {
                assert(q[i] == p[i + j + 1]);
            }
        }
        if j >= 0 {
            assert(p[j] == id);
            assert(g[id].contains(p[j + 1]));
            let k = choose|k: int| 0 <= k < g[id].len() && g[id][k] == p[j + 1];
            assert(more[rest.len() + k] == q[0]);
        } else {
            assert(q[0] == p[0]);
            let k = choose|k: int| 0 <= k < rest.len() && rest[k] == p[0];
            assert(more[k] == q[0]);
        }
        assert(more.contains(q[0]));
        lemma_reaches_walk(g, more, seen.insert(id), q);
        let tail = walk_order(g, more, seen.insert(id));
        let k = choose|k: int| 0 <= k < tail.len() && tail[k] == x;
        assert(whole[k + 1] == x);
    }
}

/// A walk comes to exactly the nodes that a path leads to.
pub proof fn law_walk_is_reachability(g: GraphView, roots: Seq<Seq<char>>)
    requires
        g.dom().finite(),
    ensures
        forall|x: Seq<char>| #[trigger] visited(g, roots).contains(x) <==> reaches(g, roots, x),
{
    assert forall|x: Seq<char>| #[trigger] visited(g, roots).contains(x) <==> reaches(g, roots, x) by {
        if visited(g, roots).contains(x) {
            lemma_walk_reaches(g, roots, Set::empty(), x);
        }
        if reaches(g, roots, x) {
            let p = choose|p: Seq<Seq<char>>| #[trigger] is_path(g, p) && roots.contains(p[0]) && p.last() == x;
            assert(avoids(p, Set::empty()));
            lemma_reaches_walk(g, roots, Set::empty(), p);
        }
    }
}

/// Where a walk comes to a known node, it comes to all that the node leads to.
pub proof fn law_walk_is_closed(g: GraphView, roots: Seq<Seq<char>>, x: Seq<char>, y: Seq<char>)
    requires
        g.dom().finite(),
        visited(g, roots).contains(x),
        g.contains_key(x),
        g[x].contains(y),
    ensures
        visited(g, roots).contains(y),
{
    law_walk_is_reachability(g, roots);
    assert(reaches(g, roots, x));
    let p = choose|p: Seq<Seq<char>>| #[trigger] is_path(g, p) && roots.contains(p[0]) && p.last() == x;
    let q = p.push(y);
    assert forall|i: int| 0 <= i < q.len() - 1 implies g.contains_key(#[trigger] q[i]) && g[q[i]].contains(q[i + 1]) by {
        if i < p.len() - 1 {
            assert(q[i] == p[i] && q[i + 1] == p[i + 1]);
        } else {
            assert(q[i] == x && q[i + 1] == y);
        }
    }
    assert(is_path(g, q));
    assert(q.last() == y && q[0] == p[0]);
    assert(reaches(g, roots, y));
}

/// A walk takes the last of the roots first, and then what this leads to, the last of it first,
/// before it takes the other roots. It comes to a known node once.
pub proof fn law_walk_goes_deep_first(g: GraphView, roots: Seq<Seq<char>>, x: Seq<char>, i: int, j: int)
    requires
        g.dom().finite(),
    ensures
        visited(g, roots.push(x))[0] == x,
        visited(g, Seq::empty()).len() == 0,
        !g.contains_key(x) ==> visited(g, roots.push(x)) == seq![x] + visited(g, roots),
        g.contains_key(x) && g[x].len() > 0 && g[x].last() != x ==> visited(g, roots.push(x))[1] == g[x].last(),
        0 <= i < j < visited(g, roots).len() && visited(g, roots)[i] == visited(g, roots)[j] ==> !g.contains_key(
            visited(g, roots)[i],
        ),
{
    let none = Set::<Seq<char>>::empty();
    let s = roots.push(x);
    assert(s.drop_last() =~= roots);
    if g.contains_key(x) && g[x].len() > 0 && g[x].last() != x {
        lemma_unseen_shrinks(g, none, x);
        let more = roots + g[x];
        let y = g[x].last();
        assert(more.last() == y);
        let rest = walk_order(g, more, none.insert(x));
        assert(rest[0] == y);
        assert(visited(g, s) == seq![x] + rest);
    }
    if 0 <= i < j < visited(g, roots).len() {
        lemma_known_once(g, roots, none, i, j);
    }
}

proof fn lemma_known_once(g: GraphView, stack: Seq<Seq<char>>, seen: Set<Seq<char>>, i: int, j: int)
    requires
        g.dom().finite(),
        0 <= i < j < walk_order(g, stack, seen).len(),
    ensures
        walk_order(g, stack, seen)[i] == walk_order(g, stack, seen)[j] ==> !g.contains_key(
            walk_order(g, stack, seen)[i],
        ),
    decreases g.dom().difference(seen).len(), stack.len(),
{
    let id = stack.last();
    let rest = stack.drop_last();
    let all = walk_order(g, stack, seen);
    if seen.contains(id) {
        lemma_known_once(g, rest, seen, i, j);
    } else if !g.contains_key(id) {
        let tail = walk_order(g, rest, seen);
        assert(all =~= seq![id] + tail);
        if i > 0 {
            lemma_known_once(g, rest, seen, i - 1, j - 1);
        }
    } else {
        lemma_unseen_shrinks(g, seen, id);
        let more = rest + g[id];
        let tail = walk_order(g, more, seen.insert(id));
        assert(all =~= seq![id] + tail);
        if i > 0 {
            lemma_known_once(g, more, seen.insert(id), i - 1, j - 1);
        } else {
            lemma_avoids_seen(g, more, seen.insert(id), j - 1);
            assert(all[j] == tail[j - 1]);
        }
    }
}

proof fn lemma_avoids_seen(g: GraphView, stack: Seq<Seq<char>>, seen: Set<Seq<char>>, j: int)
    requires
        g.dom().finite(),
        0 <= j < walk_order(g, stack, seen).len(),
    ensures
        !seen.contains(walk_order(g, stack, seen)[j]),
    decreases g.dom().difference(seen).len(), stack.len(),
{
    let id = stack.last();
    let rest = stack.drop_last();
    if seen.contains(id) {
        lemma_avoids_seen(g, rest, seen, j);
    } else if !g.contains_key(id) {
        if j > 0 {
            lemma_avoids_seen(g, rest, seen, j - 1);
        }
    } else {
        lemma_unseen_shrinks(g, seen, id);
        if j > 0 {
            lemma_avoids_seen(g, rest + g[id], seen.insert(id), j - 1);
        }
    }
}

} // verus!

//! Paths as a repository writes them.

use vstd::prelude::*;
use vstd::string::*;

use crate::model;
use crate::roundtrip;
use crate::strmap;
use crate::strmap::StrSet;
use crate::text;
use crate::walk;

verus! {

/// Why a path is refused.
#[derive(Clone, Debug, PartialEq, Eq)]
pub enum PathError {
    /// One of its components is empty, leads upwards, or holds a zero character.
    Component { component: String },
    /// It lies outside the repository.
    Outside { path: String },
}

/// What a `PathError` says.
pub enum PathErrorView {
    Component { component: Seq<char> },
    Outside { path: Seq<char> },
}

/// What the outcome of normalizing a path says.
pub open spec fn outcome(r: Result<String, PathError>) -> Result<Seq<char>, PathErrorView> {
    match r {
        Ok(p) => Ok(p@),
        Err(PathError::Component { component }) => Err(PathErrorView::Component { component: component@ }),
        Err(PathError::Outside { path }) => Err(PathErrorView::Outside { path: path@ }),
    }
}

/// `s` with slashes alone, and without any `./` at its front.
pub open spec fn cleaned(s: Seq<char>) -> Seq<char> {
    text::strip_front(text::replaced(s, '\\', '/'), "./"@)
}

/// A component that no path may have.
pub open spec fn is_bad(component: Seq<char>) -> bool {
    component == ".."@ || component.contains('\0') || component.len() == 0
}

/// The first of the components that no path may have.
pub open spec fn first_bad(components: Seq<Seq<char>>) -> Option<Seq<char>>
    decreases components.len(),
{
    if components.len() == 0 {
        None
    } else {
        match first_bad(components.drop_last()) {
            Some(c) => Some(c),
            None => if is_bad(components.last()) {
                Some(components.last())
            } else {
                None
            },
        }
    }
}

/// The path `s` as a repository writes it: nothing for the place itself, else names with single
/// slashes between them.
pub open spec fn normal(s: Seq<char>) -> Result<Seq<char>, PathErrorView> {
    if cleaned(s).len() == 0 || cleaned(s) == "."@ {
        Ok(Seq::empty())
    } else {
        match first_bad(text::split(cleaned(s), '/')) {
            Some(component) => Err(PathErrorView::Component { component }),
            None => Ok(cleaned(s)),
        }
    }
}

proof fn lemma_bad_stays(components: Seq<Seq<char>>, k: int)
    requires
        0 <= k <= components.len(),
        first_bad(components.take(k)) is Some,
    ensures
        first_bad(components) == first_bad(components.take(k)),
    decreases components.len() - k,
{
    if k < components.len() {
        assert(components.take(k + 1).drop_last() =~= components.take(k));
        lemma_bad_stays(components, k + 1);
    } else {
        assert(components.take(k) =~= components);
    }
}

/// The path `s` as a repository writes it, or why it is refused. Where the path leads is not
/// looked at here.
pub fn normalize_text(s: &str) -> (r: Result<String, PathError>)
    ensures
        outcome(r) == normal(s@),
{
    let slashed = text::replace_char(s, '\\', '/');
    let clean = text::trim_start_matches(slashed.as_str(), "./");
    if clean.as_str().is_empty() || text::str_eq(clean.as_str(), ".") {
        let nothing = String::new();
        assert(nothing@ =~= Seq::empty());
        return Ok(nothing);
    }
    let pieces = text::split_text(clean.as_str(), '/');
    let ghost all = text::texts(pieces@);
    let mut i: usize = 0;
    assert(all.take(0) =~= Seq::empty());
    while i < pieces.len()
        invariant
            i <= pieces@.len(),
            all == text::texts(pieces@),
            all == text::split(cleaned(s@), '/'),
            cleaned(s@).len() > 0,
            cleaned(s@) != "."@,
            first_bad(all.take(i as int)) is None,
        decreases pieces@.len() - i,
    {
        let p = &pieces[i];
        proof {
            assert(all.take(i + 1).drop_last() =~= all.take(i as int));
            assert(all.take(i + 1).last() == p@);
        }
        if text::str_eq(p.as_str(), "..") || text::has_char(p.as_str(), '\0') || p.as_str().is_empty() {
            proof {
                lemma_bad_stays(all, i + 1);
            }
            return Err(PathError::Component { component: p.clone() });
        }
        i = i + 1;
    }
    assert(all.take(i as int) =~= all);
    Ok(clean)
}

/// Refuses a normalized path that leads outside the repository. `inside` tells where it leads,
/// and is missing where nothing stands there.
pub fn confine(path: String, inside: Option<bool>) -> (r: Result<String, PathError>)
    ensures
        outcome(r) == (if path@.len() > 0 && inside == Some(false) {
            Err(PathErrorView::Outside { path: path@ })
        } else {
            Ok(path@)
        }),
{
    if !path.as_str().is_empty() {
        match inside {
            Some(within) => {
                if !within {
                    return Err(PathError::Outside { path });
                }
            },
            None => {},
        }
    }
    Ok(path)
}

/// The path is that of the repository's own directory, or lies in it.
pub open spec fn under_pop(path: Seq<char>) -> bool {
    path == model::POP_DIR@ || text::has_prefix(path, model::POP_DIR@ + "/"@)
}

/// Whether the path is that of the repository's own directory, or lies in it.
pub fn is_under_pop(path: &str) -> (r: bool)
    ensures
        r == under_pop(path@),
{
    text::str_eq(path, model::POP_DIR) || text::starts_with(
        path,
        text::concat(model::POP_DIR, "/").as_str(),
    )
}

/// The paths in ascending order, each once.
pub fn sorted_paths(paths: &Vec<String>) -> (r: Vec<String>)
    ensures
        text::texts(r@) == strmap::ascending(text::texts(paths@).to_set()),
{
    let ghost all = text::texts(paths@);
    let mut set = StrSet::new();
    let mut i: usize = 0;
    while i < paths.len()
        invariant
            i <= paths@.len(),
            all == text::texts(paths@),
            forall|p: Seq<char>| #[trigger] set@.contains(p) <==> all.take(i as int).contains(p),
        decreases paths@.len() - i,
    {
        let ghost before = set@;
        set.insert(paths[i].clone());
        proof {
            assert(all.take(i + 1) =~= all.take(i as int).push(all[i as int]));
            assert forall|p: Seq<char>| #[trigger] set@.contains(p) <==> all.take(i + 1).contains(p) by {
                strmap::lemma_push_contains(all.take(i as int), all[i as int], p);
                assert(before.contains(p) <==> all.take(i as int).contains(p));
            }
        }
        i = i + 1;
    }
    proof {
        assert(all.take(i as int) =~= all);
        assert(set@ =~= all.to_set());
    }
    list_of(&set)
}

/// The members of a set in ascending order.
pub fn list_of(set: &StrSet) -> (r: Vec<String>)
    ensures
        text::texts(r@) == strmap::ascending(set@),
{
    let n = set.len();
    let ghost items = set.items();
    let mut out: Vec<String> = Vec::new();
    let mut i: usize = 0;
    assert(text::texts(out@) =~= items.take(0));
    while i < n
        invariant
            i <= n == items.len(),
            items == set.items(),
            text::texts(out@) == items.take(i as int),
        decreases n - i,
    {
        let ghost before = text::texts(out@);
        out.push(set.item(i).clone());
        proof {
            assert(text::texts(out@) =~= before.push(items[i as int]));
            assert(items.take(i + 1) =~= items.take(i as int).push(items[i as int]));
        }
        i = i + 1;
    }
    assert(items.take(i as int) =~= items);
    out
}

// ---------------------------------------------------------------------------------------
// Laws
// ---------------------------------------------------------------------------------------
proof fn lemma_path_push(prefix: Seq<char>, parts: Seq<Seq<char>>, x: Seq<char>)
    ensures
        roundtrip::path_at(prefix, parts.push(x)) == walk::child_path(roundtrip::path_at(prefix, parts), x),
    decreases parts.len(),
{
    let all = parts.push(x);
    if parts.len() == 0 {
        assert(all.drop_first() =~= Seq::empty());
        assert(roundtrip::path_at(walk::child_path(prefix, x), all.drop_first()) == walk::child_path(prefix, x));
    } else {
        assert(all.drop_first() =~= parts.drop_first().push(x));
        lemma_path_push(walk::child_path(prefix, parts[0]), parts.drop_first(), x);
    }
}

proof fn lemma_split_joins(s: Seq<char>)
    requires
        s.len() > 0 ==> s[0] != '/',
    ensures
        roundtrip::path_at(Seq::empty(), text::split(s, '/')) == s,
    decreases s.len(),
{
    let e = Seq::<char>::empty();
    if s.len() == 0 {
        let one = seq![e];
        assert(one.drop_first() =~= Seq::empty());
        assert(roundtrip::path_at(e, one.drop_first()) == e);
        assert(s =~= e);
    } else {
        let f = s.drop_last();
        let c = s.last();
        let front = text::split(f, '/');
        lemma_split_joins(f);
        text::lemma_split_nonempty(f, '/');
        reveal_strlit("/");
        if c == '/' {
            lemma_path_push(e, front, e);
            assert(f + "/"@ + e =~= s);
        } else {
            let head = front.drop_last();
            let x = roundtrip::path_at(e, head);
            assert(front =~= head.push(front.last()));
            lemma_path_push(e, head, front.last());
            lemma_path_push(e, head, front.last().push(c));
            assert(walk::child_path(x, front.last().push(c)) =~= walk::child_path(x, front.last()).push(c));
            assert(f.push(c) =~= s);
        }
    }
}

proof fn lemma_all_nonempty(pieces: Seq<Seq<char>>)
    requires
        first_bad(pieces) is None,
    ensures
        text::nonempty(pieces) == pieces,
    decreases pieces.len(),
{
    if pieces.len() > 0 {
        lemma_all_nonempty(pieces.drop_last());
        assert(pieces.drop_last().push(pieces.last()) =~= pieces);
    } else {
        assert(pieces =~= Seq::empty());
    }
}

proof fn lemma_first_piece(s: Seq<char>)
    ensures
        s.len() > 0 && s[0] == '/' ==> text::split(s, '/').len() >= 2 && text::split(s, '/')[0].len() == 0,
        s.len() == 0 ==> text::split(s, '/')[0].len() == 0,
    decreases s.len(),
{
    if s.len() > 0 && s[0] == '/' {
        let f = s.drop_last();
        lemma_first_piece(f);
        text::lemma_split_nonempty(f, '/');
        if f.len() == 0 {
            assert(text::split(f, '/') =~= seq![Seq::<char>::empty()]);
        }
    }
}

proof fn lemma_good_first(pieces: Seq<Seq<char>>)
    requires
        pieces.len() > 0,
        first_bad(pieces) is None,
    ensures
        pieces[0].len() > 0,
    decreases pieces.len(),
{
    if pieces.len() > 1 {
        lemma_good_first(pieces.drop_last());
    }
}

/// A normalized path other than the empty one is nothing but names with single slashes between
/// them, none of which leads upwards: a tree holds it and gives it back as it is.
pub proof fn law_normalized_paths_are_canonical(s: Seq<char>)
    requires
        normal(s) is Ok,
        normal(s)->Ok_0.len() > 0,
    ensures
        roundtrip::canonical(normal(s)->Ok_0),
        forall|i: int|
            0 <= i < text::path_parts(normal(s)->Ok_0).len() ==> !is_bad(
                #[trigger] text::path_parts(normal(s)->Ok_0)[i],
            ),
{
    let p = normal(s)->Ok_0;
    let pieces = text::split(p, '/');
    text::lemma_split_nonempty(p, '/');
    lemma_all_nonempty(pieces);
    lemma_good_first(pieces);
    lemma_first_piece(p);
    lemma_split_joins(p);
    lemma_none_bad(pieces);
}

proof fn lemma_none_bad(pieces: Seq<Seq<char>>)
    requires
        first_bad(pieces) is None,
    ensures
        forall|i: int| 0 <= i < pieces.len() ==> !is_bad(#[trigger] pieces[i]),
    decreases pieces.len(),
{
    if pieces.len() > 0 {
        lemma_none_bad(pieces.drop_last());
        assert forall|i: int| 0 <= i < pieces.len() implies !is_bad(#[trigger] pieces[i]) by {
            if i < pieces.len() - 1 {
                assert(pieces.drop_last()[i] == pieces[i]);
            }
        }
    }
}

proof fn lemma_strip_front_done(s: Seq<char>, p: Seq<char>)
    requires
        p.len() > 0,
    ensures
        !text::has_prefix(text::strip_front(s, p), p),
    decreases s.len(),
{
    if text::has_prefix(s, p) {
        lemma_strip_front_done(s.skip(p.len() as int), p);
    }
}

/// Normalizing a normalized path changes nothing.
pub proof fn law_normalizing_twice(s: Seq<char>)
    requires
        normal(s) is Ok,
    ensures
        normal(normal(s)->Ok_0) == normal(s),
{
    reveal_strlit("./");
    reveal_strlit(".");
    let p = normal(s)->Ok_0;
    let slashed = text::replaced(s, '\\', '/');
    if p.len() == 0 {
        assert(text::replaced(p, '\\', '/') =~= p);
    } else {
        lemma_strip_front_done(slashed, "./"@);
        lemma_strip_front_chars(slashed, "./"@, '\\');
        assert(text::replaced(p, '\\', '/') =~= p) by {
            assert forall|i: int| 0 <= i < p.len() implies p[i] != '\\' by {
                assert(p.contains(p[i]));
            }
        }
    }
}

proof fn lemma_strip_front_chars(s: Seq<char>, p: Seq<char>, c: char)
    requires
        !s.contains(c),
    ensures
        !text::strip_front(s, p).contains(c),
    decreases s.len(),
{
    if p.len() > 0 && text::has_prefix(s, p) {
        let rest = s.skip(p.len() as int);
        assert forall|i: int| 0 <= i < rest.len() implies rest[i] != c by {
            assert(s.contains(s[i + p.len()]));
        }
        lemma_strip_front_chars(rest, p, c);
    }
}

/// A path in good order is kept as it is: one of names with single slashes between them, none of
/// which leads upwards or holds a zero character.
pub proof fn law_good_paths_are_kept(p: Seq<char>)
    requires
        p.len() > 0,
        p != "."@,
        !p.contains('\\'),
        !(p.len() >= 2 && p[0] == '.' && p[1] == '/'),
        forall|i: int|
            0 <= i < text::split(p, '/').len() ==> (#[trigger] text::split(p, '/')[i]).len() > 0 && text::split(p, '/')[i]
                != ".."@ && !text::split(p, '/')[i].contains('\0'),
    ensures
        normal(p) == Ok::<Seq<char>, PathErrorView>(p),
{
    reveal_strlit("./");
    let r = text::replaced(p, '\\', '/');
    assert forall|i: int| 0 <= i < p.len() implies r[i] == #[trigger] p[i] by {
        if p[i] == '\\' {
            assert(p.contains('\\'));
        }
    }
    assert(r =~= p);
    if text::has_prefix(p, "./"@) {
        assert(p.take(2)[0] == '.' && p.take(2)[1] == '/');
    }
    assert(cleaned(p) == p);
    lemma_all_good(text::split(p, '/'));
}

proof fn lemma_all_good(pieces: Seq<Seq<char>>)
    requires
        forall|i: int|
            0 <= i < pieces.len() ==> (#[trigger] pieces[i]).len() > 0 && pieces[i] != ".."@ && !pieces[i].contains('\0'),
    ensures
        first_bad(pieces) is None,
    decreases pieces.len(),
{
    if pieces.len() > 0 {
        let f = pieces.drop_last();
        assert forall|i: int| 0 <= i < f.len() implies (#[trigger] f[i]).len() > 0 && f[i] != ".."@ && !f[i].contains(
            '\0',
        ) by {
            assert(f[i] == pieces[i]);
        }
        lemma_all_good(f);
        assert(pieces[pieces.len() - 1] == pieces.last());
    }
}

proof fn lemma_some_bad(pieces: Seq<Seq<char>>)
    ensures
        first_bad(pieces) is Some ==> pieces.contains(first_bad(pieces)->0) && is_bad(first_bad(pieces)->0),
        (exists|i: int| 0 <= i < pieces.len() && is_bad(#[trigger] pieces[i])) ==> first_bad(pieces) is Some,
    decreases pieces.len(),
{
    if pieces.len() > 0 {
        let f = pieces.drop_last();
        lemma_some_bad(f);
        assert(pieces =~= f.push(pieces.last()));
        if first_bad(pieces) is Some {
            strmap::lemma_push_contains(f, pieces.last(), first_bad(pieces)->0);
        }
        if exists|i: int| 0 <= i < pieces.len() && is_bad(#[trigger] pieces[i]) {
            let i = choose|i: int| 0 <= i < pieces.len() && is_bad(#[trigger] pieces[i]);
            if i < f.len() {
                assert(is_bad(f[i]));
            }
        }
    }
}

/// A path is refused where one of its names is empty, leads upwards or holds a zero character, and
/// such a name is told. Leading `./` and the kind of slash do not matter.
pub proof fn law_bad_paths_are_refused(s: Seq<char>, name: Seq<char>)
    ensures
        normal("./"@ + s) == normal(s),
        normal(text::replaced(s, '\\', '/')) == normal(s),
        normal(s) is Err ==> normal(s)->Err_0 is Component && {
            let c = normal(s)->Err_0->component;
            c.len() == 0 || c == ".."@ || c.contains('\0')
        },
        s.len() > 0 && s != "."@ && !s.contains('\\') && !(s.len() >= 2 && s[0] == '.' && s[1] == '/') && text::split(
            s,
            '/',
        ).contains(name) && (name.len() == 0 || name == ".."@ || name.contains('\0')) ==> normal(s) is Err,
        normal(s) is Err ==> text::split(cleaned(s), '/').contains(normal(s)->Err_0->component),
{
    reveal_strlit("./");
    let r = text::replaced(s, '\\', '/');
    assert(text::replaced("./"@ + s, '\\', '/') =~= "./"@ + r);
    text::law_stripping_takes_all(r, "./"@);
    assert(text::replaced(r, '\\', '/') =~= r);
    lemma_some_bad(text::split(cleaned(s), '/'));
    if s.len() > 0 && s != "."@ && !s.contains('\\') && !(s.len() >= 2 && s[0] == '.' && s[1] == '/') && text::split(
        s,
        '/',
    ).contains(name) && (name.len() == 0 || name == ".."@ || name.contains('\0')) {
        assert forall|i: int| 0 <= i < s.len() implies r[i] == #[trigger] s[i] by {
            if s[i] == '\\' {
                assert(s.contains('\\'));
            }
        }
        assert(r =~= s);
        if text::has_prefix(s, "./"@) {
            assert(s.take(2)[0] == '.' && s.take(2)[1] == '/');
        }
        assert(cleaned(s) == s);
        let ps = text::split(s, '/');
        let i = choose|i: int| 0 <= i < ps.len() && ps[i] == name;
        assert(is_bad(ps[i]));
    }
}

/// The place itself is written as nothing at all.
pub proof fn law_place_itself_is_nothing()
    ensures
        normal(Seq::empty()) == Ok::<Seq<char>, PathErrorView>(Seq::empty()),
        normal("."@) == Ok::<Seq<char>, PathErrorView>(Seq::empty()),
        normal("./"@) == Ok::<Seq<char>, PathErrorView>(Seq::empty()),
{
    reveal_strlit("./");
    reveal_strlit(".");
    let none = Seq::<char>::empty();
    assert(text::replaced(none, '\\', '/') =~= none);
    assert(cleaned(none) == none);
    assert(text::replaced("."@, '\\', '/') =~= "."@);
    assert(cleaned("."@) == "."@);
    law_bad_paths_are_refused(none, none);
    assert("./"@ + none =~= "./"@);
}

/// The outcome of normalizing says the path, or why it is refused.
pub proof fn law_outcomes_say_path_or_reason(p: String)
    ensures
        outcome(Ok(p)) == Ok::<Seq<char>, PathErrorView>(p@),
        outcome(Err(PathError::Component { component: p })) == Err::<Seq<char>, PathErrorView>(
            PathErrorView::Component { component: p@ },
        ),
        outcome(Err(PathError::Outside { path: p })) == Err::<Seq<char>, PathErrorView>(
            PathErrorView::Outside { path: p@ },
        ),
{
}

/// A path lies under the repository's own directory exactly where it is that directory or goes on
/// behind it with a slash.
pub proof fn law_under_the_own_directory(path: Seq<char>, rest: Seq<char>)
    ensures
        under_pop(".pop"@),
        under_pop(".pop/"@ + rest),
        under_pop(path) && path != ".pop"@ ==> path.len() >= 5 && path.take(5) == ".pop/"@,
        rest.len() > 0 && rest[0] != '/' ==> !under_pop(".pop"@ + rest),
{
    reveal_strlit(".pop");
    reveal_strlit(".pop/");
    reveal_strlit("/");
    let pre = ".pop"@ + "/"@;
    assert(pre =~= ".pop/"@);
    text::law_prefix_and_rest(path, pre, rest);
    let x = ".pop"@ + rest;
    if rest.len() > 0 && rest[0] != '/' {
        assert(x[4] == rest[0]);
        assert(x.len() != ".pop"@.len());
        if text::has_prefix(x, pre) {
            assert(x.take(5)[4] == '/');
        }
    }
}

} // verus!

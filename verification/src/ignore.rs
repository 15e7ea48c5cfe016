//! Which paths a repository leaves alone, and which need a lock.

use vstd::prelude::*;
use vstd::string::*;

use crate::model::Config;
use crate::model;
use crate::paths;
use crate::paths::is_under_pop;
use crate::text;

verus! {

// ---------------------------------------------------------------------------------------
// Sets of globs
// ---------------------------------------------------------------------------------------
/// A parsed glob of the `globset` crate.
#[verifier::external_type_specification]
#[verifier::external_body]
pub struct ExGlob(globset::Glob);

/// What the `globset` crate collects globs in.
#[verifier::external_type_specification]
#[verifier::external_body]
pub struct ExGlobSetBuilder(globset::GlobSetBuilder);

/// A set of globs of the `globset` crate.
#[verifier::external_type_specification]
#[verifier::external_body]
pub struct ExGlobSet(globset::GlobSet);

/// The error of the `globset` crate.
#[verifier::external_type_specification]
#[verifier::external_body]
pub struct ExGlobError(globset::Error);

/// Whether `globset::Glob::new` accepts a pattern.
pub uninterp spec fn glob_parses(pattern: Seq<char>) -> bool;

/// Whether `globset::GlobSetBuilder::build` accepts patterns.
pub uninterp spec fn globs_build(patterns: Seq<Seq<char>>) -> bool;

/// Whether `globset::GlobSet::is_match` finds that a pattern matches a path.
pub uninterp spec fn glob_matches(pattern: Seq<char>, path: Seq<char>) -> bool;

/// The pattern that a glob was made from.
pub uninterp spec fn glob_pattern(g: globset::Glob) -> Seq<char>;

/// The patterns of the globs that a builder holds.
pub uninterp spec fn builder_patterns(b: globset::GlobSetBuilder) -> Seq<Seq<char>>;

/// The patterns of the globs that a set holds.
pub uninterp spec fn set_patterns(s: globset::GlobSet) -> Seq<Seq<char>>;

/// Calls `globset::Glob::new`. Trusted: whether it succeeds depends on the pattern alone, and
/// the glob is that of the pattern. What the pattern means follows the path separator of the
/// platform that the program is built for.
#[verifier::external_body]
fn new_glob(pattern: &str) -> (r: Result<globset::Glob, globset::Error>)
    ensures
        r is Ok <==> glob_parses(pattern@),
        r is Ok ==> glob_pattern(r->Ok_0) == pattern@,
{
    globset::Glob::new(pattern)
}

/// Calls `globset::GlobSetBuilder::new`. Trusted: the new builder holds no glob.
#[verifier::external_body]
fn new_builder() -> (r: globset::GlobSetBuilder)
    ensures
        builder_patterns(r) == Seq::<Seq<char>>::empty(),
{
    globset::GlobSetBuilder::new()
}

/// Calls `globset::GlobSetBuilder::add`. Trusted: it puts the glob behind those that the
/// builder holds.
#[verifier::external_body]
fn add_glob(b: &mut globset::GlobSetBuilder, g: globset::Glob)
    ensures
        builder_patterns(*final(b)) == builder_patterns(*old(b)).push(glob_pattern(g)),
{
    b.add(g);
}

/// Calls `globset::GlobSetBuilder::build`. Trusted: whether it succeeds depends on the patterns
/// alone, and the set holds the globs of the builder.
#[verifier::external_body]
fn build_set(b: &globset::GlobSetBuilder) -> (r: Result<globset::GlobSet, globset::Error>)
    ensures
        r is Ok <==> globs_build(builder_patterns(*b)),
        r is Ok ==> set_patterns(r->Ok_0) == builder_patterns(*b),
{
    b.build()
}

/// Calls `globset::GlobSet::is_match`. Trusted: it tells whether any glob of the set matches
/// the path.
#[verifier::external_body]
fn set_matches(s: &globset::GlobSet, path: &str) -> (r: bool)
    ensures
        r == (exists|i: int|
            0 <= i < set_patterns(*s).len() && glob_matches(#[trigger] set_patterns(*s)[i], path@)),
{
    s.is_match(path)
}

/// One of the patterns matches the path.
pub open spec fn any_matches(patterns: Seq<Seq<char>>, path: Seq<char>) -> bool {
    exists|i: int| 0 <= i < patterns.len() && glob_matches(#[trigger] patterns[i], path)
}

/// All patterns are accepted, each by itself and all together.
pub open spec fn usable(patterns: Seq<Seq<char>>) -> bool {
    &&& forall|i: int| 0 <= i < patterns.len() ==> glob_parses(#[trigger] patterns[i])
    &&& globs_build(patterns)
}

/// The set of the globs of the patterns.
pub fn build_globset(patterns: &Vec<String>) -> (r: Result<globset::GlobSet, globset::Error>)
    ensures
        r is Ok <==> usable(text::texts(patterns@)),
        r is Ok ==> set_patterns(r->Ok_0) == text::texts(patterns@),
{
    let ghost all = text::texts(patterns@);
    let mut b = new_builder();
    let mut i: usize = 0;
    assert(all.take(0) =~= Seq::empty());
    while i < patterns.len()
        invariant
            i <= patterns@.len(),
            all == text::texts(patterns@),
            builder_patterns(b) == all.take(i as int),
            forall|j: int| 0 <= j < i ==> glob_parses(#[trigger] all[j]),
        decreases patterns@.len() - i,
    {
        assert(all[i as int] == patterns@[i as int]@);
        match new_glob(patterns[i].as_str()) {
            Ok(g) => {
                add_glob(&mut b, g);
            },
            Err(e) => {
                return Err(e);
            },
        }
        assert(all.take(i + 1) =~= all.take(i as int).push(all[i as int]));
        i = i + 1;
    }
    assert(all.take(i as int) =~= all);
    build_set(&b)
}

/// What the patterns say of the path; `None` where they are not usable.
pub open spec fn said_by(patterns: Seq<Seq<char>>, path: Seq<char>) -> Option<bool> {
    if usable(patterns) {
        Some(any_matches(patterns, path))
    } else {
        None
    }
}

/// Whether one of the patterns matches the path; `None` where they are not usable.
pub fn match_globs(patterns: &Vec<String>, path: &str) -> (r: Option<bool>)
    ensures
        r == said_by(text::texts(patterns@), path@),
{
    match build_globset(patterns) {
        Ok(set) => Some(set_matches(&set, path)),
        Err(_) => None,
    }
}

// ---------------------------------------------------------------------------------------
// Locks
// ---------------------------------------------------------------------------------------
/// The configuration wants a lock on the path: there are patterns, they are usable, and one of
/// them matches.
pub open spec fn wants_lock(path: Seq<char>, cfg: model::ConfigView) -> bool {
    cfg.lock_required.len() > 0 && said_by(cfg.lock_required, path) == Some(true)
}

/// Whether the configuration wants a lock on the path.
pub fn requires_lock(path: &str, cfg: &Config) -> (r: bool)
    ensures
        r == wants_lock(path@, cfg@),
{
    if cfg.lock_required.len() == 0 {
        return false;
    }
    match match_globs(&cfg.lock_required, path) {
        Some(hit) => hit,
        None => false,
    }
}

// ---------------------------------------------------------------------------------------
// Ignored paths
// ---------------------------------------------------------------------------------------
/// What follows the last dot of `s`, or all of `s` where it holds none.
pub open spec fn after_last_dot(s: Seq<char>) -> Seq<char>
    decreases s.len(),
{
    if s.len() == 0 || s.last() == '.' {
        Seq::empty()
    } else {
        after_last_dot(s.drop_last()).push(s.last())
    }
}

fn extension(s: &str) -> (r: String)
    ensures
        r@ == after_last_dot(s@),
{
    let v = text::chars_of(s);
    let mut i: usize = v.len();
    let ghost all = s@;
    assert(all.take(all.len() as int) =~= all);
    assert(after_last_dot(all) =~= after_last_dot(all.take(i as int)) + all.skip(i as int));
    while i > 0 && v[i - 1] != '.'
        invariant
            i <= v@.len(),
            v@ == all,
            all == s@,
            after_last_dot(all) == after_last_dot(all.take(i as int)) + all.skip(i as int),
        decreases i,
    {
        proof {
            let t = all.take(i as int);
            assert(t.drop_last() =~= all.take(i - 1));
            assert(after_last_dot(t) == after_last_dot(t.drop_last()).push(t.last()));
            assert(after_last_dot(t.drop_last()).push(t.last()) + all.skip(i as int) =~= after_last_dot(
                all.take(i - 1),
            ) + all.skip(i - 1));
        }
        i = i - 1;
    }
    proof {
        let t = all.take(i as int);
        if i > 0 {
            assert(t.last() == '.');
        }
        assert(after_last_dot(t) =~= Seq::empty());
        assert(after_last_dot(all) =~= all.skip(i as int));
        assert(v@.subrange(i as int, v@.len() as int) =~= all.skip(i as int));
    }
    text::text_of(&v, i, v.len())
}

/// A pattern as it is compared: with slashes alone, and without white space around it.
pub open spec fn tidied(pattern: Seq<char>) -> Seq<char> {
    text::trimmed(text::replaced(pattern, '\\', '/'))
}

/// The ignore pattern `pattern` covers the path. It names the path or a directory above it; or
/// it is `*.` with what follows the last dot of the path; or it is a directory above the path
/// with `/*` behind it.
pub open spec fn covers(pattern: Seq<char>, path: Seq<char>) -> bool {
    let p = tidied(pattern);
    p.len() > 0 && {
        ||| path == p
        ||| text::has_prefix(path, p + "/"@)
        ||| text::has_prefix(p, "*."@) && p == "*."@ + after_last_dot(path)
        ||| text::has_suffix(p, "/*"@) && text::has_prefix(path, text::strip_back(p, "/*"@) + "/"@)
    }
}

fn pattern_covers(pattern: &str, path: &str) -> (r: bool)
    ensures
        r == covers(pattern@, path@),
{
    let slashed = text::replace_char(pattern, '\\', '/');
    let p = text::trim(slashed.as_str());
    if p.as_str().is_empty() {
        return false;
    }
    if text::str_eq(path, p.as_str()) || text::starts_with(path, text::concat(p.as_str(), "/").as_str()) {
        return true;
    }
    if text::starts_with(p.as_str(), "*.") {
        let ext = extension(path);
        if text::str_eq(text::concat("*.", ext.as_str()).as_str(), p.as_str()) {
            return true;
        }
    }
    if text::ends_with(p.as_str(), "/*") {
        let base = text::trim_end_matches(p.as_str(), "/*");
        if text::starts_with(path, text::concat(base.as_str(), "/").as_str()) {
            return true;
        }
    }
    false
}

/// One of the ignore patterns covers the path.
pub open spec fn any_covers(patterns: Seq<Seq<char>>, path: Seq<char>) -> bool {
    exists|i: int| 0 <= i < patterns.len() && covers(#[trigger] patterns[i], path)
}

/// What is ignored before the sparse patterns are asked: the place itself, the repository's own
/// directory, and what an ignore pattern covers.
pub open spec fn always_ignored(path: Seq<char>, patterns: Seq<Seq<char>>) -> bool {
    path.len() == 0 || path == "."@ || paths::under_pop(path) || any_covers(patterns, path)
}

/// Whether the path is ignored before the sparse patterns are asked.
pub fn is_always_ignored(path: &str, cfg: &Config) -> (r: bool)
    ensures
        r == always_ignored(path@, cfg@.ignore),
{
    if path.is_empty() || text::str_eq(path, ".") {
        return true;
    }
    if is_under_pop(path) {
        return true;
    }
    let ghost all = cfg@.ignore;
    let mut i: usize = 0;
    while i < cfg.ignore.len()
        invariant
            i <= cfg.ignore@.len(),
            all == cfg@.ignore,
            path@.len() > 0,
            path@ != "."@,
            !paths::under_pop(path@),
            forall|j: int| 0 <= j < i ==> !covers(#[trigger] all[j], path@),
        decreases cfg.ignore@.len() - i,
    {
        assert(all[i as int] == cfg.ignore@[i as int]@);
        if pattern_covers(cfg.ignore[i].as_str(), path) {
            return true;
        }
        i = i + 1;
    }
    false
}

/// Whether the path is ignored, where the sparse patterns say `said` of it.
pub open spec fn ignored(path: Seq<char>, cfg: model::ConfigView, said: Option<bool>) -> bool {
    always_ignored(path, cfg.ignore) || (cfg.sparse.len() > 0 && said == Some(false))
}

/// Whether the path is ignored, where the sparse patterns say `said` of it: with sparse patterns
/// that are usable, all is ignored that none of them matches.
pub fn ignore_where(path: &str, cfg: &Config, said: Option<bool>) -> (r: bool)
    ensures
        r == ignored(path@, cfg@, said),
{
    if is_always_ignored(path, cfg) {
        return true;
    }
    if cfg.sparse.len() == 0 {
        return false;
    }
    match said {
        Some(hit) => !hit,
        None => false,
    }
}

/// Whether the path is ignored.
pub fn should_ignore(path: &str, cfg: &Config) -> (r: bool)
    ensures
        r == ignored(path@, cfg@, said_by(cfg@.sparse, path@)),
{
    if is_always_ignored(path, cfg) {
        return true;
    }
    if cfg.sparse.len() == 0 {
        return false;
    }
    let said = match_globs(&cfg.sparse, path);
    ignore_where(path, cfg, said)
}

// ---------------------------------------------------------------------------------------
// The configuration
// ---------------------------------------------------------------------------------------
/// The glob for all that lies below a directory.
pub open spec fn below(dir: Seq<char>) -> Seq<char> {
    let d = text::replaced(dir, '\\', '/');
    if d.len() > 0 && d.last() == '/' {
        d + "**"@
    } else {
        d + "/**"@
    }
}

/// The globs for all that lies below each of the directories.
pub fn sparse_patterns(dirs: &Vec<String>) -> (r: Vec<String>)
    ensures
        text::texts(r@) == text::texts(dirs@).map_values(|d: Seq<char>| below(d)),
{
    let ghost all = text::texts(dirs@);
    let ghost shape = |d: Seq<char>| below(d);
    let mut out: Vec<String> = Vec::new();
    let mut i: usize = 0;
    assert(text::texts(out@) =~= all.take(0).map_values(shape));
    while i < dirs.len()
        invariant
            i <= dirs@.len(),
            all == text::texts(dirs@),
            shape == (|d: Seq<char>| below(d)),
            text::texts(out@) == all.take(i as int).map_values(shape),
        decreases dirs@.len() - i,
    {
        let ghost before = text::texts(out@);
        let d = text::replace_char(dirs[i].as_str(), '\\', '/');
        proof {
            reveal_strlit("/");
            if d@.len() > 0 {
                assert(d@.skip(d@.len() - 1) =~= seq![d@.last()]);
                assert("/"@ =~= seq!['/']);
                if d@.last() != '/' {
                    assert(seq![d@.last()][0] != seq!['/'][0]);
                }
            }
        }
        let p = if text::ends_with(d.as_str(), "/") {
            text::concat(d.as_str(), "**")
        } else {
            text::concat(d.as_str(), "/**")
        };
        let ghost pv = p@;
        out.push(p);
        proof {
            assert(pv == below(all[i as int]));
            assert(text::texts(out@) =~= before.push(pv));
            assert(all.take(i + 1).map_values(shape) =~= all.take(i as int).map_values(shape).push(pv));
        }
        i = i + 1;
    }
    assert(all.take(i as int) =~= all);
    out
}

/// Adds an ignore pattern.
pub fn ignore_add(cfg: &mut Config, pattern: &str)
    ensures
        final(cfg)@ == (model::ConfigView { ignore: old(cfg)@.ignore.push(pattern@), ..old(cfg)@ }),
{
    let ghost before = cfg@.ignore;
    cfg.ignore.push(String::from_str(pattern));
    assert(cfg@.ignore =~= before.push(pattern@));
}

/// Sets the sparse patterns to those for all that lies below the directories, of which there has
/// to be one at least; else nothing changes, and `false` says so.
pub fn sparse_set(cfg: &mut Config, dirs: &Vec<String>) -> (r: bool)
    ensures
        r == (dirs@.len() > 0),
        final(cfg)@ == (if r {
            model::ConfigView {
                sparse: text::texts(dirs@).map_values(|d: Seq<char>| below(d)),
                ..old(cfg)@
            }
        } else {
            old(cfg)@
        }),
{
    if dirs.len() == 0 {
        return false;
    }
    cfg.sparse = sparse_patterns(dirs);
    true
}

/// Takes the sparse patterns away.
pub fn sparse_clear(cfg: &mut Config)
    ensures
        final(cfg)@ == (model::ConfigView { sparse: Seq::empty(), ..old(cfg)@ }),
{
    cfg.sparse = Vec::new();
    assert(cfg@.sparse =~= Seq::empty());
}

/// The lines that tell of patterns: each of them, or `none` where there is none.
pub open spec fn shown(patterns: Seq<Seq<char>>, none: Seq<char>) -> Seq<Seq<char>> {
    if patterns.len() == 0 {
        seq![none]
    } else {
        patterns
    }
}

fn show(patterns: &Vec<String>, none: &str) -> (r: Vec<String>)
    ensures
        text::texts(r@) == shown(text::texts(patterns@), none@),
{
    if patterns.len() == 0 {
        let mut out: Vec<String> = Vec::new();
        out.push(String::from_str(none));
        assert(text::texts(out@) =~= seq![none@]);
        return out;
    }
    model::copy_texts(patterns)
}

/// The lines that tell of the ignore patterns.
pub fn ignore_show(cfg: &Config) -> (r: Vec<String>)
    ensures
        text::texts(r@) == shown(cfg@.ignore, "(no ignore patterns)"@),
{
    show(&cfg.ignore, "(no ignore patterns)")
}

/// The lines that tell of the sparse patterns.
pub fn sparse_show(cfg: &Config) -> (r: Vec<String>)
    ensures
        text::texts(r@) == shown(cfg@.sparse, "(no sparse patterns)"@),
{
    show(&cfg.sparse, "(no sparse patterns)")
}

// ---------------------------------------------------------------------------------------
// Laws
// ---------------------------------------------------------------------------------------
/// The repository's own directory, and all that lies in it, is ignored whatever is configured.
pub proof fn law_own_directory_is_ignored(path: Seq<char>, cfg: model::ConfigView, said: Option<bool>)
    requires
        paths::under_pop(path),
    ensures
        ignored(path, cfg, said),
{
}

/// A pattern that names a directory covers all that lies in it.
pub proof fn law_directory_pattern_covers(pattern: Seq<char>, rest: Seq<char>)
    requires
        tidied(pattern).len() > 0,
    ensures
        covers(pattern, tidied(pattern) + "/"@ + rest),
{
    let p = tidied(pattern) + "/"@;
    assert((p + rest).take(p.len() as int) =~= p);
}

/// More ignore patterns never bring an ignored path back.
pub proof fn law_more_patterns_ignore_more(path: Seq<char>, cfg: model::ConfigView, more: Seq<char>, said: Option<bool>)
    requires
        ignored(path, cfg, said),
    ensures
        ignored(path, (model::ConfigView { ignore: cfg.ignore.push(more), ..cfg }), said),
{
    if any_covers(cfg.ignore, path) {
        let i = choose|i: int| 0 <= i < cfg.ignore.len() && covers(#[trigger] cfg.ignore[i], path);
        assert(cfg.ignore.push(more)[i] == cfg.ignore[i]);
    }
}

/// What stands behind the last dot of a text holds no dot, and is all of a text without one.
pub proof fn law_extension_is_behind_the_last_dot(front: Seq<char>, ext: Seq<char>)
    requires
        !ext.contains('.'),
    ensures
        after_last_dot(ext) == ext,
        after_last_dot(front + seq!['.'] + ext) == ext,
    decreases ext.len(),
{
    let s = front + seq!['.'] + ext;
    if ext.len() == 0 {
        assert(ext =~= Seq::<char>::empty());
        assert(s.last() == '.');
    } else {
        let e = ext.drop_last();
        assert forall|i: int| 0 <= i < e.len() implies e[i] != '.' by {
            assert(ext[i] == e[i]);
            if e[i] == '.' {
                assert(ext.contains('.'));
            }
        }
        law_extension_is_behind_the_last_dot(front, e);
        assert(ext[ext.len() - 1] == ext.last());
        assert(ext.last() != '.');
        assert(s.drop_last() =~= front + seq!['.'] + e);
        assert(s.last() == ext.last());
        assert(ext =~= e.push(ext.last()));
    }
}

proof fn lemma_no_dot_behind(s: Seq<char>)
    ensures
        !after_last_dot(s).contains('.'),
    decreases s.len(),
{
    if s.len() > 0 && s.last() != '.' {
        let f = after_last_dot(s.drop_last());
        lemma_no_dot_behind(s.drop_last());
        let r = after_last_dot(s);
        if r.contains('.') {
            let k = choose|k: int| 0 <= k < r.len() && r[k] == '.';
            assert(k < f.len());
            assert(f[k] == '.');
        }
    }
}

/// A pattern is compared with slashes in place of backslashes and without the white space around
/// it, and as it is where it has neither.
pub proof fn law_patterns_are_tidied(pattern: Seq<char>) -> (r: (int, int))
    ensures
        0 <= r.0 <= r.1 <= pattern.len(),
        tidied(pattern).len() == r.1 - r.0,
        forall|k: int|
            r.0 <= k < r.1 ==> #[trigger] tidied(pattern)[k - r.0] == (if pattern[k] == '\\' {
                '/'
            } else {
                pattern[k]
            }),
        forall|k: int| 0 <= k < r.0 || r.1 <= k < pattern.len() ==> text::is_space(#[trigger] pattern[k]),
        r.0 < r.1 ==> !text::is_space(tidied(pattern)[0]) && !text::is_space(tidied(pattern).last()),
{
    let t = text::replaced(pattern, '\\', '/');
    let (i, j) = text::law_trimming_takes_white_space(t);
    assert forall|k: int| 0 <= k < i || j <= k < pattern.len() implies text::is_space(#[trigger] pattern[k]) by {
        assert(text::is_space(t[k]));
    }
    (i, j)
}

/// A pattern without backslashes and without white space around it is compared as it is.
pub proof fn law_plain_patterns_stay(pattern: Seq<char>)
    requires
        !pattern.contains('\\'),
        pattern.len() > 0,
        !text::is_space(pattern[0]),
        !text::is_space(pattern.last()),
    ensures
        tidied(pattern) == pattern,
{
    let (i, j) = law_patterns_are_tidied(pattern);
    assert(i == 0 && j == pattern.len()) by {
        if i > 0 {
            assert(text::is_space(pattern[0]));
        }
        if j < pattern.len() {
            assert(text::is_space(pattern[pattern.len() - 1]));
        }
    }
    assert forall|k: int| 0 <= k < pattern.len() implies tidied(pattern)[k] == #[trigger] pattern[k] by {
        assert(tidied(pattern)[k - i] == tidied(pattern)[k]);
        if pattern[k] == '\\' {
            assert(pattern.contains('\\'));
        }
    }
    assert(tidied(pattern) =~= pattern);
}

proof fn lemma_below(t: Seq<char>, path: Seq<char>)
    ensures
        text::has_prefix(path, t + "/"@) <==> path.len() > t.len() && path.take(t.len() as int) == t
            && path[t.len() as int] == '/',
{
    reveal_strlit("/");
    let ps = t + "/"@;
    if text::has_prefix(path, ps) {
        assert(path.take(ps.len() as int)[t.len() as int] == '/');
        assert(path.take(t.len() as int) =~= path.take(ps.len() as int).take(t.len() as int));
        assert(ps.take(t.len() as int) =~= t);
    }
    if path.len() > t.len() && path.take(t.len() as int) == t && path[t.len() as int] == '/' {
        assert forall|i: int| 0 <= i < ps.len() implies path.take(ps.len() as int)[i] == ps[i] by {
            if i < t.len() {
                assert(path.take(t.len() as int)[i] == t[i]);
            }
        }
        assert(path.take(ps.len() as int) =~= ps);
    }
}

proof fn lemma_by_extension(t: Seq<char>, path: Seq<char>)
    ensures
        text::has_prefix(t, "*."@) && t == "*."@ + after_last_dot(path) <==> t.len() >= 2 && t[0] == '*' && t[1] == '.'
            && !t.skip(2).contains('.') && (path == t.skip(2) || exists|front: Seq<char>|
            path == #[trigger] (front + seq!['.']) + t.skip(2)),
{
    reveal_strlit("*.");
    let e = after_last_dot(path);
    lemma_no_dot_behind(path);
    lemma_split_at_dot(path);
    if text::has_prefix(t, "*."@) && t == "*."@ + e {
        assert(t.skip(2) =~= e);
        if path != e {
            let front = choose|front: Seq<char>| path == #[trigger] (front + seq!['.']) + e;
            assert(path == (front + seq!['.']) + t.skip(2));
        }
    }
    if t.len() >= 2 && t[0] == '*' && t[1] == '.' && !t.skip(2).contains('.') && (path == t.skip(2) || exists|
        front: Seq<char>,
    | path == #[trigger] (front + seq!['.']) + t.skip(2)) {
        assert(t.take(2) =~= "*."@);
        assert(t =~= "*."@ + t.skip(2));
        if path == t.skip(2) {
            law_extension_is_behind_the_last_dot(Seq::empty(), t.skip(2));
        } else {
            let front = choose|front: Seq<char>| path == #[trigger] (front + seq!['.']) + t.skip(2);
            law_extension_is_behind_the_last_dot(front, t.skip(2));
        }
    }
}

/// Which paths a pattern covers: itself, all that lies below it, all that ends with its extension
/// where it is `*.` and an extension, and all that lies below its directory where it ends with
/// `/*`. It covers no other, and one without anything in it covers none.
pub proof fn law_pattern_covers_exactly(pattern: Seq<char>, path: Seq<char>)
    ensures
        covers(pattern, path) <==> tidied(pattern).len() > 0 && {
            let t = tidied(pattern);
            ||| path == t
            ||| path.len() > t.len() && path.take(t.len() as int) == t && path[t.len() as int] == '/'
            ||| t.len() >= 2 && t[0] == '*' && t[1] == '.' && !t.skip(2).contains('.') && (path == t.skip(2) || exists|
                front: Seq<char>,
            | path == #[trigger] (front + seq!['.']) + t.skip(2))
            ||| text::has_suffix(t, "/*"@) && text::has_prefix(path, text::strip_back(t, "/*"@) + seq!['/'])
        },
{
    reveal_strlit("/");
    assert("/"@ =~= seq!['/']);
    let t = tidied(pattern);
    lemma_below(t, path);
    lemma_by_extension(t, path);
}

proof fn lemma_split_at_dot(s: Seq<char>)
    ensures
        s == after_last_dot(s) || exists|front: Seq<char>| s == #[trigger] (front + seq!['.']) + after_last_dot(s),
    decreases s.len(),
{
    if s.len() == 0 {
        assert(s =~= after_last_dot(s));
    } else if s.last() == '.' {
        let front = s.drop_last();
        assert(s =~= (front + seq!['.']) + after_last_dot(s));
    } else {
        let t = s.drop_last();
        lemma_split_at_dot(t);
        let e = after_last_dot(t);
        assert(s =~= t.push(s.last()));
        assert(after_last_dot(s) == e.push(s.last()));
        if t == e {
            assert(s =~= after_last_dot(s));
        } else {
            let front = choose|front: Seq<char>| t == #[trigger] (front + seq!['.']) + e;
            assert(s =~= (front + seq!['.']) + after_last_dot(s));
        }
    }
}

/// A path is ignored exactly where it is that of the place itself or of the repository's own
/// directory, or lies in that directory, or one of the ignore patterns covers it, or there are
/// sparse patterns, all of them usable, and none of them matches it.
pub proof fn law_ignored_exactly(path: Seq<char>, cfg: model::ConfigView)
    ensures
        ignored(path, cfg, said_by(cfg.sparse, path)) <==> {
            ||| path.len() == 0
            ||| path == "."@
            ||| path == ".pop"@
            ||| exists|rest: Seq<char>| path == #[trigger] (".pop/"@ + rest)
            ||| exists|x: Seq<char>| #[trigger] cfg.ignore.contains(x) && covers(x, path)
            ||| cfg.sparse.len() > 0 && globs_build(cfg.sparse) && (forall|x: Seq<char>| #[trigger]
                cfg.sparse.contains(x) ==> glob_parses(x) && !glob_matches(x, path))
        },
{
    reveal_strlit(".pop");
    reveal_strlit(".pop/");
    reveal_strlit("/");
    assert(".pop"@ + "/"@ =~= ".pop/"@);
    let pre = ".pop/"@;
    if text::has_prefix(path, pre) {
        text::law_prefix_and_rest(path, pre, path);
        assert(path == ".pop/"@ + path.skip(pre.len() as int));
    }
    if exists|rest: Seq<char>| path == #[trigger] (".pop/"@ + rest) {
        let rest = choose|rest: Seq<char>| path == #[trigger] (".pop/"@ + rest);
        text::law_prefix_and_rest(path, pre, rest);
    }
    if any_covers(cfg.ignore, path) {
        let i = choose|i: int| 0 <= i < cfg.ignore.len() && covers(#[trigger] cfg.ignore[i], path);
        assert(cfg.ignore.contains(cfg.ignore[i]));
    }
    if exists|x: Seq<char>| #[trigger] cfg.ignore.contains(x) && covers(x, path) {
        let x = choose|x: Seq<char>| #[trigger] cfg.ignore.contains(x) && covers(x, path);
        let i = choose|i: int| 0 <= i < cfg.ignore.len() && cfg.ignore[i] == x;
        assert(covers(cfg.ignore[i], path));
    }
    let s = cfg.sparse;
    if usable(s) && !any_matches(s, path) {
        assert forall|x: Seq<char>| #[trigger] s.contains(x) implies glob_parses(x) && !glob_matches(x, path) by {
            let i = choose|i: int| 0 <= i < s.len() && s[i] == x;
            assert(glob_parses(s[i]));
        }
    }
    if globs_build(s) && (forall|x: Seq<char>| #[trigger] s.contains(x) ==> glob_parses(x) && !glob_matches(x, path)) {
        assert forall|i: int| 0 <= i < s.len() implies glob_parses(#[trigger] s[i]) by {
            assert(s.contains(s[i]));
        }
        assert forall|i: int| 0 <= i < s.len() implies !glob_matches(#[trigger] s[i], path) by {
            assert(s.contains(s[i]));
        }
    }
}

/// A lock is wanted exactly where there are patterns, all of them usable, and one of them matches.
pub proof fn law_lock_wanted_exactly(path: Seq<char>, cfg: model::ConfigView)
    ensures
        wants_lock(path, cfg) <==> {
            &&& globs_build(cfg.lock_required)
            &&& forall|x: Seq<char>| #[trigger] cfg.lock_required.contains(x) ==> glob_parses(x)
            &&& exists|x: Seq<char>| #[trigger] cfg.lock_required.contains(x) && glob_matches(x, path)
        },
{
    let s = cfg.lock_required;
    if wants_lock(path, cfg) {
        let i = choose|i: int| 0 <= i < s.len() && glob_matches(#[trigger] s[i], path);
        assert(s.contains(s[i]));
        assert forall|x: Seq<char>| #[trigger] s.contains(x) implies glob_parses(x) by {
            let k = choose|k: int| 0 <= k < s.len() && s[k] == x;
            assert(glob_parses(s[k]));
        }
    }
    if globs_build(s) && (forall|x: Seq<char>| #[trigger] s.contains(x) ==> glob_parses(x)) && (exists|x: Seq<char>|
        #[trigger] s.contains(x) && glob_matches(x, path)) {
        let x = choose|x: Seq<char>| #[trigger] s.contains(x) && glob_matches(x, path);
        let i = choose|i: int| 0 <= i < s.len() && s[i] == x;
        assert(glob_matches(s[i], path));
        assert forall|k: int| 0 <= k < s.len() implies glob_parses(#[trigger] s[k]) by {
            assert(s.contains(s[k]));
        }
    }
}

/// The pattern for all below a directory is the directory, a slash and two stars, whether or not
/// the directory is written with a slash at its end.
pub proof fn law_sparse_directory(dir: Seq<char>)
    requires
        !dir.contains('\\'),
        dir.len() > 0,
        dir.last() != '/',
    ensures
        below(dir) == dir + seq!['/', '*', '*'],
        below(dir + seq!['/']) == dir + seq!['/', '*', '*'],
        below(dir + seq!['\\']) == dir + seq!['/', '*', '*'],
{
    reveal_strlit("**");
    reveal_strlit("/**");
    assert forall|i: int| 0 <= i < dir.len() implies #[trigger] dir[i] != '\\' by {
        if dir[i] == '\\' {
            assert(dir.contains('\\'));
        }
    }
    assert(text::replaced(dir, '\\', '/') =~= dir);
    assert(text::replaced(dir + seq!['/'], '\\', '/') =~= dir + seq!['/']);
    assert(text::replaced(dir + seq!['\\'], '\\', '/') =~= dir + seq!['/']);
    assert(below(dir) =~= dir + seq!['/', '*', '*']);
    assert(below(dir + seq!['/']) =~= dir + seq!['/', '*', '*']);
    assert(below(dir + seq!['\\']) =~= dir + seq!['/', '*', '*']);
}

/// Patterns are shown one to a line, in their order; where there is none, one line says so.
pub proof fn law_patterns_are_shown(patterns: Seq<Seq<char>>, none: Seq<char>)
    ensures
        patterns.len() > 0 ==> shown(patterns, none) == patterns,
        patterns.len() == 0 ==> shown(patterns, none).len() == 1 && shown(patterns, none)[0] == none,
{
}

} // verus!

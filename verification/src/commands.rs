//! The commands: what each of them makes of the commits, trees and layers that are at hand.

use vstd::prelude::*;
use vstd::string::*;

use crate::changes;
use crate::changes::{
    commit_effective_map, diff_maps, make_layer_from_index, replay, staged_target, CommitError, Diff, Layers,
};
use crate::commits;
use crate::commits::{diff_from, message_ok, pick_parent};
use crate::fsck::{fsck, Issue};
use crate::fsck;
use crate::history;
use crate::history::{merge_base, old_parent, rebase_chain, HistoryError};
use crate::keep;
use crate::keep::{gc_keep, gc_sweep, walk_roots};
use crate::locks;
use crate::locks::{assert_locks_for_index, LockDb};
use crate::merge;
use crate::merge::{three_way_merge, MergePlan};
use crate::model;
use crate::model::{Commit, Commits, Config, FileMap, Index, Layer};
use crate::objects;
use crate::objects::{has_shard, names_object};
use crate::paths::list_of;
use crate::remote;
use crate::remote::{
    build_python_apply_script, mkdir_script, object_url, parse_remote, push_url, remote_object_path,
    remote_repo_dir, sh_quote, RemoteError, RemoteSpec,
};
use crate::strmap;
use crate::strmap::StrSet;
use crate::text;
use crate::tree;
use crate::tree::{build_tree_from_index, Node};
use crate::walk;
use crate::walk::Trees;

verus! {

// ---------------------------------------------------------------------------------------
// Errors
// ---------------------------------------------------------------------------------------
/// Why a command on commits fails.
#[derive(Clone, Debug, PartialEq, Eq)]
pub enum CommandError {
    /// A commit cannot be read.
    Missing { id: String },
    /// The files of a commit cannot be told.
    Unreadable { why: CommitError },
    /// A commit is among its own ancestors.
    Endless,
    /// The first commit of a repository cannot be picked.
    NoParent,
}

/// What a `CommandError` says.
pub enum ErrorView {
    Missing { id: Seq<char> },
    Unreadable { why: CommitError },
    Endless,
    NoParent,
}

impl View for CommandError {
    type V = ErrorView;

    open spec fn view(&self) -> ErrorView {
        match self {
            CommandError::Missing { id } => ErrorView::Missing { id: id@ },
            CommandError::Unreadable { why } => ErrorView::Unreadable { why: *why },
            CommandError::Endless => ErrorView::Endless,
            CommandError::NoParent => ErrorView::NoParent,
        }
    }
}

/// The commit `id`.
pub open spec fn found(c: history::CommitsView, id: Seq<char>) -> Result<model::CommitView, ErrorView> {
    if c.contains_key(id) {
        Ok(c[id])
    } else {
        Err(ErrorView::Missing { id })
    }
}

/// The files of a commit.
pub open spec fn told(c: model::CommitView, t: walk::TreesView, l: changes::LayersView) -> Result<model::Files, ErrorView> {
    match changes::effective(c, t, l) {
        Ok(m) => Ok(m),
        Err(why) => Err(ErrorView::Unreadable { why }),
    }
}

fn find_commit<'a>(commits: &'a Commits, id: &str) -> (r: Result<&'a Commit, CommandError>)
    ensures
        match found(commits@, id@) {
            Ok(c) => r is Ok && r->Ok_0@ == c,
            Err(e) => r is Err && r->Err_0@ == e,
        },
{
    match commits.get(id) {
        Some(c) => Ok(c),
        None => Err(CommandError::Missing { id: String::from_str(id) }),
    }
}

fn tell_files(c: &Commit, trees: &Trees, layers: &Layers) -> (r: Result<FileMap, CommandError>)
    ensures
        match told(c@, trees@, layers@) {
            Ok(m) => r is Ok && r->Ok_0@ == m,
            Err(e) => r is Err && r->Err_0@ == e,
        },
{
    match commit_effective_map(c, trees, layers) {
        Ok(m) => Ok(m),
        Err(why) => Err(CommandError::Unreadable { why }),
    }
}

// ---------------------------------------------------------------------------------------
// Names
// ---------------------------------------------------------------------------------------
/// The commit that `name` names: the one on the first line of the branch file of that name,
/// where there is one, else the commit of that name, where there is one.
pub open spec fn named(name: Seq<char>, branch_file: Option<Seq<char>>, is_commit: bool) -> Option<Seq<char>> {
    match branch_file {
        Some(s) => Some(text::first_line(s)),
        None => if is_commit {
            Some(name)
        } else {
            None
        },
    }
}

/// The commit that `name` names, where it names any.
pub fn resolve_id_or_branch(name: &str, branch_file: &Option<String>, is_commit: bool) -> (r: Option<String>)
    ensures
        model::opt_text(r) == named(name@, model::opt_text(*branch_file), is_commit),
{
    match branch_file {
        Some(s) => Some(text::read_first_line(s.as_str())),
        None => {
            if is_commit {
                Some(String::from_str(name))
            } else {
                None
            }
        },
    }
}

// ---------------------------------------------------------------------------------------
// Commit
// ---------------------------------------------------------------------------------------
/// Why nothing is committed.
pub enum Refusal {
    /// There is no message.
    NoMessage,
    /// The files of the current commit cannot be told.
    Unreadable(CommitError),
    /// A lock is missing; this is what is said.
    Locked(String),
    /// What is staged changes nothing.
    Nothing,
}

/// What a commit is made of.
pub struct CommitPlan {
    /// The layer of the commit.
    pub layer: Layer,
    /// The tree of all its files, which still has to be stored.
    pub tree: Node,
}

/// The lines that tell which staged paths are blocked.
pub open spec fn blocked(
    idx: model::IndexView,
    cfg: model::ConfigView,
    db: locks::LocksView,
    me: Seq<char>,
    now: i64,
) -> Seq<Seq<char>> {
    locks::blocked_lines(locks::needs_locks(idx, cfg), locks::live(db, now), me)
}

/// What a commit on top of `parent` is made of, or why nothing is committed: first it takes a
/// message, then the files of the current commit, then the locks, then a change.
pub fn commit_cmd(
    message: &str,
    current: &Commit,
    trees: &Trees,
    layers: &Layers,
    idx: &Index,
    cfg: &Config,
    db: &mut LockDb,
    me: &str,
    now: i64,
) -> (r: Result<CommitPlan, Refusal>)
    ensures
        ({
            let files = changes::effective(current@, trees@, layers@);
            let lines = blocked(idx@, cfg@, old(db)@, me@, now);
            if text::trimmed(message@).len() == 0 {
                r is Err && r->Err_0 is NoMessage && final(db)@ == old(db)@
            } else if files is Err {
                r is Err && r->Err_0 is Unreadable && r->Err_0->Unreadable_0 == files->Err_0 && final(db)@ == old(
                    db,
                )@
            } else if lines.len() > 0 {
                r is Err && r->Err_0 is Locked && r->Err_0->Locked_0@ == locks::refusal(lines) && final(db)@
                    == locks::live(old(db)@, now)
            } else if changes::layer_changes(files->Ok_0, idx@).len() == 0 {
                r is Err && r->Err_0 is Nothing && final(db)@ == locks::live(old(db)@, now)
            } else {
                r is Ok && r->Ok_0.layer@ == changes::layer_changes(files->Ok_0, idx@) && tree::holds(
                    r->Ok_0.tree,
                    tree::items_of(changes::staged(files->Ok_0, idx@)),
                ) && final(db)@ == locks::live(old(db)@, now)
            }
        }),
{
    if !message_ok(message) {
        return Err(Refusal::NoMessage);
    }
    let parent = match commit_effective_map(current, trees, layers) {
        Ok(m) => m,
        Err(why) => {
            return Err(Refusal::Unreadable(why));
        },
    };
    match assert_locks_for_index(idx, cfg, db, me, now) {
        Ok(()) => {},
        Err(said) => {
            return Err(Refusal::Locked(said));
        },
    }
    match make_layer_from_index(&parent, idx) {
        None => Err(Refusal::Nothing),
        Some(layer) => {
            let target = staged_target(&parent, idx);
            Ok(CommitPlan { layer, tree: build_tree_from_index(&target) })
        },
    }
}

// ---------------------------------------------------------------------------------------
// Differences
// ---------------------------------------------------------------------------------------
/// The commit that a difference to `to_id` starts from: the one that is named, or the one before
/// it.
pub open spec fn start_of(c: history::CommitsView, from: Option<Seq<char>>, to_id: Seq<char>) -> Seq<char> {
    match from {
        Some(id) => id,
        None => commits::diff_start(c[to_id], to_id),
    }
}

/// The files at both ends of a difference.
pub open spec fn diff_ends(
    c: history::CommitsView,
    t: walk::TreesView,
    l: changes::LayersView,
    from: Option<Seq<char>>,
    to_id: Seq<char>,
) -> Result<(model::Files, model::Files), ErrorView> {
    match found(c, to_id) {
        Err(e) => Err(e),
        Ok(to) => match told(to, t, l) {
            Err(e) => Err(e),
            Ok(b) => match found(c, start_of(c, from, to_id)) {
                Err(e) => Err(e),
                Ok(start) => match told(start, t, l) {
                    Err(e) => Err(e),
                    Ok(a) => Ok((a, b)),
                },
            },
        },
    }
}

/// `d` tells the difference from `a` to `b`.
pub open spec fn tells(d: Diff, a: model::Files, b: model::Files) -> bool {
    &&& text::texts(d.added@) == strmap::ascending(changes::added_paths(a, b))
    &&& text::texts(d.modified@) == strmap::ascending(changes::modified_paths(a, b))
    &&& text::texts(d.deleted@) == strmap::ascending(changes::added_paths(b, a))
}

/// The difference to the commit `to_id`, and the commit that it starts from.
pub fn diff_cmd(commits: &Commits, trees: &Trees, layers: &Layers, from: &Option<String>, to_id: &str) -> (r: Result<
    (String, Diff),
    CommandError,
>)
    ensures
        match diff_ends(commits@, trees@, layers@, model::opt_text(*from), to_id@) {
            Err(e) => r is Err && r->Err_0@ == e,
            Ok((a, b)) => r is Ok && r->Ok_0.0@ == start_of(commits@, model::opt_text(*from), to_id@) && tells(
                r->Ok_0.1,
                a,
                b,
            ),
        },
{
    let to = match find_commit(commits, to_id) {
        Ok(c) => c,
        Err(e) => {
            return Err(e);
        },
    };
    let b = match tell_files(to, trees, layers) {
        Ok(m) => m,
        Err(e) => {
            return Err(e);
        },
    };
    let from_id = match from {
        Some(id) => id.clone(),
        None => diff_from(to, to_id),
    };
    let start = match find_commit(commits, from_id.as_str()) {
        Ok(c) => c,
        Err(e) => {
            return Err(e);
        },
    };
    let a = match tell_files(start, trees, layers) {
        Ok(m) => m,
        Err(e) => {
            return Err(e);
        },
    };
    Ok((from_id, diff_maps(&a, &b)))
}

/// What has changed: what is staged on top of the current files, and what the working tree holds
/// against them.
pub fn status_cmd(head: &FileMap, idx: &Index, work: &FileMap) -> (r: (Diff, Diff))
    ensures
        tells(r.0, head@, changes::staged(head@, idx@)),
        tells(r.1, head@, work@),
{
    let target = staged_target(head, idx);
    (diff_maps(head, &target), diff_maps(head, work))
}

// ---------------------------------------------------------------------------------------
// Merge, cherry-pick and rebase
// ---------------------------------------------------------------------------------------
/// Where the lines of `a` and `b` meet cannot be told, because one of them comes back to itself.
pub open spec fn no_base(c: history::CommitsView, a: Seq<char>, b: Seq<char>) -> bool {
    history::endless(c, a) || (history::endless(c, b) && history::first_shared(
        history::line(c, a),
        history::line(c, b),
    ) is None)
}

/// The files of the three sides of a merge: the base, ours and theirs.
pub open spec fn merge_sides(
    c: history::CommitsView,
    t: walk::TreesView,
    l: changes::LayersView,
    ours_id: Seq<char>,
    theirs_id: Seq<char>,
) -> Result<(model::Files, model::Files, model::Files), ErrorView> {
    match (found(c, ours_id), found(c, theirs_id)) {
        (Err(e), _) => Err(e),
        (Ok(_), Err(e)) => Err(e),
        (Ok(ours), Ok(theirs)) => if no_base(c, ours_id, theirs_id) {
            Err(ErrorView::Endless)
        } else {
            match found(c, history::base_of(c, ours_id, theirs_id)) {
                Err(e) => Err(e),
                Ok(base) => match (told(base, t, l), told(ours, t, l), told(theirs, t, l)) {
                    (Err(e), _, _) => Err(e),
                    (Ok(_), Err(e), _) => Err(e),
                    (Ok(_), Ok(_), Err(e)) => Err(e),
                    (Ok(b), Ok(o), Ok(h)) => Ok((b, o, h)),
                },
            }
        },
    }
}

/// Merges the commit `theirs_id` into the commit `ours_id`, as far as hashes settle it.
pub fn merge_cmd(commits: &Commits, trees: &Trees, layers: &Layers, ours_id: &str, theirs_id: &str) -> (r: Result<
    MergePlan,
    CommandError,
>)
    ensures
        match merge_sides(commits@, trees@, layers@, ours_id@, theirs_id@) {
            Err(e) => r is Err && r->Err_0@ == e,
            Ok((b, o, t)) => r is Ok && r->Ok_0.settled@ == merge::agreed(b, o, t) && merge::clash_views(
                r->Ok_0.clashes@,
            ) == merge::clashes_at(strmap::ascending(merge::clash_paths(b, o, t)), b, o, t),
        },
{
    let ours = match find_commit(commits, ours_id) {
        Ok(c) => c,
        Err(e) => {
            return Err(e);
        },
    };
    let theirs = match find_commit(commits, theirs_id) {
        Ok(c) => c,
        Err(e) => {
            return Err(e);
        },
    };
    let base_id = match merge_base(commits, ours_id, theirs_id) {
        Ok(id) => id,
        Err(_) => {
            return Err(CommandError::Endless);
        },
    };
    let base = match find_commit(commits, base_id.as_str()) {
        Ok(c) => c,
        Err(e) => {
            return Err(e);
        },
    };
    let b = match tell_files(base, trees, layers) {
        Ok(m) => m,
        Err(e) => {
            return Err(e);
        },
    };
    let o = match tell_files(ours, trees, layers) {
        Ok(m) => m,
        Err(e) => {
            return Err(e);
        },
    };
    let t = match tell_files(theirs, trees, layers) {
        Ok(m) => m,
        Err(e) => {
            return Err(e);
        },
    };
    Ok(three_way_merge(&b, &o, &t))
}

/// The files of the current commit with the change that the commit `target_id` made.
pub open spec fn picked_files(
    c: history::CommitsView,
    t: walk::TreesView,
    l: changes::LayersView,
    target_id: Seq<char>,
    head_id: Seq<char>,
) -> Result<model::Files, ErrorView> {
    match found(c, target_id) {
        Err(e) => Err(e),
        Ok(target) => if target.parents.len() == 0 {
            Err(ErrorView::NoParent)
        } else {
            match found(c, target.parents[0]) {
                Err(e) => Err(e),
                Ok(parent) => match (told(parent, t, l), told(target, t, l), found(c, head_id)) {
                    (Err(e), _, _) => Err(e),
                    (Ok(_), Err(e), _) => Err(e),
                    (Ok(_), Ok(_), Err(e)) => Err(e),
                    (Ok(a), Ok(b), Ok(head)) => match told(head, t, l) {
                        Err(e) => Err(e),
                        Ok(h) => Ok(changes::replayed(h, a, b)),
                    },
                },
            }
        },
    }
}

/// The files of the current commit with the change that the commit `target_id` made.
pub fn cherry_pick_cmd(commits: &Commits, trees: &Trees, layers: &Layers, target_id: &str, head_id: &str) -> (r: Result<
    FileMap,
    CommandError,
>)
    ensures
        match picked_files(commits@, trees@, layers@, target_id@, head_id@) {
            Err(e) => r is Err && r->Err_0@ == e,
            Ok(m) => r is Ok && r->Ok_0@ == m,
        },
{
    let target = match find_commit(commits, target_id) {
        Ok(c) => c,
        Err(e) => {
            return Err(e);
        },
    };
    let parent_id = match pick_parent(target) {
        Some(id) => id,
        None => {
            return Err(CommandError::NoParent);
        },
    };
    let parent = match find_commit(commits, parent_id.as_str()) {
        Ok(c) => c,
        Err(e) => {
            return Err(e);
        },
    };
    let a = match tell_files(parent, trees, layers) {
        Ok(m) => m,
        Err(e) => {
            return Err(e);
        },
    };
    let b = match tell_files(target, trees, layers) {
        Ok(m) => m,
        Err(e) => {
            return Err(e);
        },
    };
    let head = match find_commit(commits, head_id) {
        Ok(c) => c,
        Err(e) => {
            return Err(e);
        },
    };
    let h = match tell_files(head, trees, layers) {
        Ok(m) => m,
        Err(e) => {
            return Err(e);
        },
    };
    Ok(replay(&h, &a, &b))
}

/// A commit that a rebase makes anew, and the commit that it is compared with.
pub struct RebaseStep {
    pub commit: Commit,
    pub against: String,
}

/// What a `RebaseStep` says.
pub struct StepView {
    pub commit: model::CommitView,
    pub against: Seq<char>,
}

impl View for RebaseStep {
    type V = StepView;

    open spec fn view(&self) -> StepView {
        StepView { commit: self.commit@, against: self.against@ }
    }
}

/// What a list of steps says.
pub open spec fn step_views(v: Seq<RebaseStep>) -> Seq<StepView> {
    v.map_values(|s: RebaseStep| s@)
}

/// The steps that make the commits `cs` anew.
pub open spec fn steps_for(cs: Seq<model::CommitView>, base: Seq<char>) -> Seq<StepView> {
    cs.map_values(|c: model::CommitView| StepView { commit: c, against: history::compared_with(c, base) })
}

/// The steps of a rebase of `head_id` onto `onto_id`, the oldest commit first: those of the
/// commits on the line of `head_id` back to where it meets that of `onto_id`.
pub open spec fn rebase_steps(c: history::CommitsView, head_id: Seq<char>, onto_id: Seq<char>) -> Result<
    Seq<StepView>,
    ErrorView,
> {
    match (found(c, onto_id), found(c, head_id)) {
        (Err(e), _) => Err(e),
        (Ok(_), Err(e)) => Err(e),
        (Ok(_), Ok(_)) => if no_base(c, head_id, onto_id) {
            Err(ErrorView::Endless)
        } else {
            let base = history::base_of(c, head_id, onto_id);
            match history::chain_to(c, head_id, base, c.dom().len()) {
                history::ChainView::Done(ids) => Ok(steps_for(history::oldest_first(c, ids), base)),
                history::ChainView::Missing(id) => Err(ErrorView::Missing { id }),
                history::ChainView::Endless => Err(ErrorView::Endless),
            }
        },
    }
}

/// The steps of a rebase of `head_id` onto `onto_id`. `None` where there is nothing to do,
/// because `head_id` is where the lines meet.
pub fn rebase_cmd(commits: &Commits, head_id: &str, onto_id: &str) -> (r: Result<Option<Vec<RebaseStep>>, CommandError>)
    ensures
        match rebase_steps(commits@, head_id@, onto_id@) {
            Err(e) => r is Err && r->Err_0@ == e,
            Ok(steps) => match r {
                Ok(Some(v)) => history::base_of(commits@, head_id@, onto_id@) != head_id@ && step_views(v@) == steps,
                Ok(None) => history::base_of(commits@, head_id@, onto_id@) == head_id@ && steps.len() == 0,
                Err(_) => false,
            },
        },
{
    match find_commit(commits, onto_id) {
        Ok(_) => {},
        Err(e) => {
            return Err(e);
        },
    }
    match find_commit(commits, head_id) {
        Ok(_) => {},
        Err(e) => {
            return Err(e);
        },
    }
    let base = match merge_base(commits, head_id, onto_id) {
        Ok(id) => id,
        Err(_) => {
            return Err(CommandError::Endless);
        },
    };
    if text::str_eq(base.as_str(), head_id) {
        return Ok(None);
    }
    let chain = match rebase_chain(commits, head_id, base.as_str()) {
        Ok(v) => v,
        Err(HistoryError::Missing { id }) => {
            return Err(CommandError::Missing { id });
        },
        Err(HistoryError::Endless) => {
            return Err(CommandError::Endless);
        },
    };
    let ghost cs = model::commit_views(chain@);
    let ghost bv = base@;
    let mut out: Vec<RebaseStep> = Vec::new();
    let mut i: usize = 0;
    assert(step_views(out@) =~= steps_for(cs.take(0), bv));
    while i < chain.len()
        invariant
            i <= chain@.len(),
            cs == model::commit_views(chain@),
            bv == base@,
            step_views(out@) == steps_for(cs.take(i as int), bv),
        decreases chain@.len() - i,
    {
        let ghost before = step_views(out@);
        let s = RebaseStep { commit: chain[i].copy(), against: old_parent(&chain[i], base.as_str()) };
        let ghost sv = s@;
        out.push(s);
        proof {
            assert(step_views(out@) =~= before.push(sv));
            assert(steps_for(cs.take(i + 1), bv) =~= steps_for(cs.take(i as int), bv).push(sv));
        }
        i = i + 1;
    }
    assert(cs.take(i as int) =~= cs);
    Ok(Some(out))
}

/// The files of the commit that a step of a rebase makes on top of `parent`: those of `parent`
/// with the change that the old commit made to the one that it is compared with.
pub open spec fn step_files(
    c: history::CommitsView,
    t: walk::TreesView,
    l: changes::LayersView,
    s: StepView,
    parent: model::CommitView,
) -> Result<model::Files, ErrorView> {
    match found(c, s.against) {
        Err(e) => Err(e),
        Ok(before) => match (told(before, t, l), told(s.commit, t, l), told(parent, t, l)) {
            (Err(e), _, _) => Err(e),
            (Ok(_), Err(e), _) => Err(e),
            (Ok(_), Ok(_), Err(e)) => Err(e),
            (Ok(a), Ok(b), Ok(p)) => Ok(changes::replayed(p, a, b)),
        },
    }
}

/// The tree, which still has to be stored, of the commit that a step of a rebase makes on top
/// of `parent`.
pub fn rebase_step(commits: &Commits, trees: &Trees, layers: &Layers, step: &RebaseStep, parent: &Commit) -> (r: Result<
    Node,
    CommandError,
>)
    ensures
        match step_files(commits@, trees@, layers@, step@, parent@) {
            Err(e) => r is Err && r->Err_0@ == e,
            Ok(m) => r is Ok && tree::holds(r->Ok_0, tree::items_of(m)),
        },
{
    let before = match find_commit(commits, step.against.as_str()) {
        Ok(c) => c,
        Err(e) => {
            return Err(e);
        },
    };
    let a = match tell_files(before, trees, layers) {
        Ok(m) => m,
        Err(e) => {
            return Err(e);
        },
    };
    let b = match tell_files(&step.commit, trees, layers) {
        Ok(m) => m,
        Err(e) => {
            return Err(e);
        },
    };
    let p = match tell_files(parent, trees, layers) {
        Ok(m) => m,
        Err(e) => {
            return Err(e);
        },
    };
    Ok(build_tree_from_index(&replay(&p, &a, &b)))
}

// ---------------------------------------------------------------------------------------
// Garbage and soundness
// ---------------------------------------------------------------------------------------
/// The objects that a collection of garbage removes: of those that are stored, all that no known
/// commit needs to which a walk from the branches and HEAD comes.
pub fn gc_cmd(
    commits: &Commits,
    branches: &Vec<String>,
    head: &str,
    trees: &Trees,
    layers: &Layers,
    stored: &Vec<String>,
) -> (r: Vec<String>)
    ensures
        text::texts(r@) == strmap::picked(
            text::texts(stored@),
            |h: Seq<char>|
                !keep::kept(commits@, keep::roots_of(text::texts(branches@), head@), trees@, layers@, h),
        ),
{
    let roots = walk_roots(branches, head);
    let kept = gc_keep(commits, &roots, trees, layers);
    let out = gc_sweep(stored, &kept);
    proof {
        let rs = keep::roots_of(text::texts(branches@), head@);
        let a = |h: Seq<char>| !kept@.contains(h);
        let b = |h: Seq<char>| !keep::kept(commits@, rs, trees@, layers@, h);
        assert forall|h: Seq<char>| #[trigger] a(h) == b(h) by {
            assert(kept@.contains(h) <==> keep::kept(commits@, rs, trees@, layers@, h));
        }
        strmap::lemma_picked_same(text::texts(stored@), a, b);
    }
    out
}

/// All that is wrong with a repository, walked from its branches and HEAD.
pub fn fsck_cmd(
    commits: &Commits,
    branches: &Vec<String>,
    head: &str,
    trees: &Trees,
    layers: &Layers,
    blobs: &StrSet,
) -> (r: Vec<Issue>)
    ensures
        fsck::issue_views(r@) == fsck::issues_of(
            keep::reached(commits@, keep::roots_of(text::texts(branches@), head@)),
            commits@,
            trees@,
            layers@,
            blobs@,
        ),
{
    let roots = walk_roots(branches, head);
    fsck(commits, &roots, trees, layers, blobs)
}

// ---------------------------------------------------------------------------------------
// Push and checkout
// ---------------------------------------------------------------------------------------
/// One step of a push.
pub enum PushStep {
    /// The object is sent to the address, where it is stored here.
    SendObject { hash: String, to: String },
    /// The bundle is sent to the address.
    SendBundle { to: String },
    /// The script is run at the other end.
    Run { script: String },
}

/// What a `PushStep` says.
pub enum PushView {
    SendObject { hash: Seq<char>, to: Seq<char> },
    SendBundle { to: Seq<char> },
    Run { script: Seq<char> },
}

impl View for PushStep {
    type V = PushView;

    open spec fn view(&self) -> PushView {
        match self {
            PushStep::SendObject { hash, to } => PushView::SendObject { hash: hash@, to: to@ },
            PushStep::SendBundle { to } => PushView::SendBundle { to: to@ },
            PushStep::Run { script } => PushView::Run { script: script@ },
        }
    }
}

/// What a list of steps says.
pub open spec fn push_views(v: Seq<PushStep>) -> Seq<PushView> {
    v.map_values(|s: PushStep| s@)
}

/// `hash` can name an object.
pub open spec fn long_enough(hash: Seq<char>) -> bool {
    crate::bytes::utf8(hash).len() >= 2
}

/// The address of an object on a server.
pub open spec fn http_object(base: Seq<char>, repo: Seq<char>, hash: Seq<char>) -> Seq<char> {
    remote::repo_url(base, repo) + "/obj/"@ + hash
}

/// The steps that send objects to a server.
pub open spec fn http_objects(base: Seq<char>, repo: Seq<char>, need: Seq<Seq<char>>) -> Seq<PushView> {
    strmap::picked(need, |h: Seq<char>| long_enough(h)).map_values(
        |h: Seq<char>| PushView::SendObject { hash: h, to: http_object(base, repo, h) },
    )
}

/// The steps of a push to a server: the objects in ascending order of their names, then the
/// bundle.
pub open spec fn http_push(base: Seq<char>, repo: Seq<char>, need: Set<Seq<char>>) -> Seq<PushView> {
    http_objects(base, repo, strmap::ascending(need)).push(
        PushView::SendBundle { to: remote::repo_url(base, repo) + "/push"@ },
    )
}

/// The steps of a push to a server.
pub fn push_http(base: &str, repo: &str, need: &StrSet) -> (r: Vec<PushStep>)
    ensures
        push_views(r@) == http_push(base@, repo@, need@),
{
    let list = list_of(need);
    let ghost all = text::texts(list@);
    let ghost pick = |h: Seq<char>| long_enough(h);
    let ghost shape = |h: Seq<char>| PushView::SendObject { hash: h, to: http_object(base@, repo@, h) };
    let mut out: Vec<PushStep> = Vec::new();
    let mut i: usize = 0;
    assert(push_views(out@) =~= strmap::picked(all.take(0), pick).map_values(shape));
    while i < list.len()
        invariant
            i <= list@.len(),
            all == text::texts(list@),
            pick == (|h: Seq<char>| long_enough(h)),
            shape == (|h: Seq<char>| PushView::SendObject { hash: h, to: http_object(base@, repo@, h) }),
            push_views(out@) == strmap::picked(all.take(i as int), pick).map_values(shape),
        decreases list@.len() - i,
    {
        let h = &list[i];
        let ghost before = push_views(out@);
        proof {
            assert(all.take(i + 1).drop_last() =~= all.take(i as int));
            assert(all.take(i + 1).last() == h@);
        }
        if names_object(h.as_str()) {
            let s = PushStep::SendObject { hash: h.clone(), to: object_url(base, repo, h.as_str()) };
            let ghost sv = s@;
            out.push(s);
            proof {
                assert(push_views(out@) =~= before.push(sv));
                assert(strmap::picked(all.take(i + 1), pick).map_values(shape) =~= strmap::picked(
                    all.take(i as int),
                    pick,
                ).map_values(shape).push(sv));
            }
        }
        i = i + 1;
    }
    assert(all.take(i as int) =~= all);
    let ghost before = push_views(out@);
    let last = PushStep::SendBundle { to: push_url(base, repo) };
    let ghost lv = last@;
    out.push(last);
    assert(push_views(out@) =~= before.push(lv));
    out
}

/// `s` is the step that sends the object `hash` over ssh.
pub open spec fn sends_object(s: PushView, dir: Seq<char>, hash: Seq<char>) -> bool {
    match s {
        PushView::SendObject { hash: h, to } => h == hash && remote::holds_object(to, dir, hash),
        _ => false,
    }
}

/// `steps` are the steps of a push over ssh: the directories, the objects in ascending order of
/// their names, the bundle, and the script that takes it in.
pub open spec fn ssh_push(steps: Seq<PushView>, dir: Seq<char>, need: Set<Seq<char>>) -> bool {
    let hs = strmap::picked(strmap::ascending(need), |h: Seq<char>| long_enough(h));
    &&& steps.len() == hs.len() + 3
    &&& steps[0] == (PushView::Run {
        script: "set -e; mkdir -p \""@ + dir + "/objects\" \""@ + dir + "/commits\" \""@ + dir + "/refs/heads\""@,
    })
    &&& forall|i: int| 0 <= i < hs.len() ==> sends_object(steps[i + 1], dir, #[trigger] hs[i])
    &&& steps[hs.len() as int + 1] == (PushView::SendBundle { to: dir + "/bundle.json"@ })
    &&& steps[hs.len() as int + 2] == (PushView::Run {
        script: remote::APPLY_1@ + remote::quoted(dir) + remote::APPLY_2@,
    })
}

/// Every object has a directory.
pub open spec fn all_sharded(need: Set<Seq<char>>) -> bool {
    forall|h: Seq<char>| #[trigger] need.contains(h) ==> objects::can_shard(h)
}

/// Whether every object has a directory.
pub fn can_shard_all(need: &StrSet) -> (r: bool)
    ensures
        r == all_sharded(need@),
{
    let n = need.len();
    let ghost items = need.items();
    let mut i: usize = 0;
    while i < n
        invariant
            i <= n == items.len(),
            items == need.items(),
            strmap::lists(items, need@),
            forall|k: int| 0 <= k < i ==> objects::can_shard(#[trigger] items[k]),
        decreases n - i,
    {
        let h = need.item(i);
        if !has_shard(h.as_str()) {
            proof {
                assert(items.contains(items[i as int]));
                assert(need@.contains(h@));
            }
            return false;
        }
        i = i + 1;
    }
    proof {
        assert forall|h: Seq<char>| #[trigger] need@.contains(h) implies objects::can_shard(h) by {
            assert(items.contains(h));
            let k = choose|k: int| 0 <= k < items.len() && items[k] == h;
            assert(objects::can_shard(items[k]));
        }
    }
    true
}

/// The steps of a push over ssh to the repository in `dir`.
pub fn push_ssh(dir: &str, need: &StrSet) -> (r: Vec<PushStep>)
    requires
        all_sharded(need@),
    ensures
        ssh_push(push_views(r@), dir@, need@),
{
    let list = list_of(need);
    let ghost all = text::texts(list@);
    let ghost pick = |h: Seq<char>| long_enough(h);
    let ghost mkdir = PushView::Run {
        script: "set -e; mkdir -p \""@ + dir@ + "/objects\" \""@ + dir@ + "/commits\" \""@ + dir@ + "/refs/heads\""@,
    };
    let _n = need.len();
    proof {
        assert(all == need.items());
        assert forall|k: int| 0 <= k < all.len() implies need@.contains(#[trigger] all[k]) by {
            assert(need.items().contains(all[k]));
        }
    }
    let mut out: Vec<PushStep> = Vec::new();
    out.push(PushStep::Run { script: mkdir_script(dir) });
    let mut i: usize = 0;
    assert(push_views(out@) =~= seq![mkdir]);
    assert(strmap::picked(all.take(0), pick) =~= Seq::empty());
    while i < list.len()
        invariant
            i <= list@.len(),
            all == text::texts(list@),
            forall|k: int| 0 <= k < all.len() ==> need@.contains(#[trigger] all[k]),
            all_sharded(need@),
            pick == (|h: Seq<char>| long_enough(h)),
            push_views(out@).len() == strmap::picked(all.take(i as int), pick).len() + 1,
            push_views(out@)[0] == mkdir,
            forall|k: int|
                0 <= k < strmap::picked(all.take(i as int), pick).len() ==> sends_object(
                    push_views(out@)[k + 1],
                    dir@,
                    #[trigger] strmap::picked(all.take(i as int), pick)[k],
                ),
        decreases list@.len() - i,
    {
        let h = &list[i];
        let ghost before = push_views(out@);
        let ghost had = strmap::picked(all.take(i as int), pick);
        proof {
            assert(all.take(i + 1).drop_last() =~= all.take(i as int));
            assert(all.take(i + 1).last() == h@);
            assert(need@.contains(all[i as int]));
        }
        if names_object(h.as_str()) {
            let to = remote_object_path(dir, h.as_str());
            let s = PushStep::SendObject { hash: h.clone(), to };
            let ghost sv = s@;
            out.push(s);
            proof {
                let now = strmap::picked(all.take(i + 1), pick);
                assert(now == had.push(h@));
                assert(push_views(out@) =~= before.push(sv));
                assert(sends_object(sv, dir@, h@));
                assert forall|k: int| 0 <= k < now.len() implies sends_object(
                    push_views(out@)[k + 1],
                    dir@,
                    #[trigger] now[k],
                ) by {
                    if k < had.len() {
                        assert(now[k] == had[k]);
                        assert(push_views(out@)[k + 1] == before[k + 1]);
                    }
                }
            }
        }
        i = i + 1;
    }
    let ghost sent = push_views(out@);
    assert(all.take(i as int) =~= all);
    out.push(PushStep::SendBundle { to: text::concat(dir, "/bundle.json") });
    out.push(PushStep::Run { script: build_python_apply_script(sh_quote(dir).as_str()) });
    proof {
        let steps = push_views(out@);
        let hs = strmap::picked(all, pick);
        assert(steps.len() == sent.len() + 2);
        assert(forall|k: int| 0 <= k < sent.len() ==> steps[k] == sent[k]);
        assert forall|k: int| 0 <= k < hs.len() implies sends_object(steps[k + 1], dir@, #[trigger] hs[k]) by {
            assert(sends_object(sent[k + 1], dir@, hs[k]));
        }
    }
    out
}

/// Why a checkout has no remote repository to turn to.
pub enum CheckoutError {
    /// An address was given, but no repository.
    NoRepo,
    /// The address names no remote repository.
    Remote(RemoteError),
}

/// The remote repository of a checkout, where an address is given.
pub fn checkout_remote(
    url: &Option<String>,
    repo: &Option<String>,
    token: &Option<String>,
    ssh_root: &Option<String>,
) -> (r: Result<Option<RemoteSpec>, CheckoutError>)
    ensures
        match *url {
            None => r == Ok::<Option<RemoteSpec>, CheckoutError>(None),
            Some(u) => match *repo {
                None => r is Err && r->Err_0 is NoRepo,
                Some(n) => match remote::remote_at(u@, n@, model::opt_text(*token), model::opt_text(*ssh_root)) {
                    Ok(spec) => r is Ok && r->Ok_0 is Some && r->Ok_0->0@ == spec,
                    Err(e) => r is Err && r->Err_0 is Remote && remote::outcome(
                        Err::<RemoteSpec, RemoteError>(r->Err_0->Remote_0),
                    ) == Err::<remote::RemoteView, remote::RemoteErrorView>(e),
                },
            },
        },
{
    match url {
        None => Ok(None),
        Some(u) => match repo {
            None => Err(CheckoutError::NoRepo),
            Some(n) => match parse_remote(u.as_str(), n.as_str(), token, ssh_root) {
                Ok(spec) => Ok(Some(spec)),
                Err(e) => Err(CheckoutError::Remote(e)),
            },
        },
    }
}

/// How an object that is not stored here is had.
pub enum Fetch {
    /// Not at all: there is no remote repository.
    Nowhere,
    /// From the address on a server, with the token where there is one.
    Http { url: String, token: Option<String> },
    /// From the path at the other end of ssh.
    Ssh { user_host: String, path: String },
}

/// `f` is how the object `hash` is had from a remote repository.
pub open spec fn fetches(f: Fetch, hash: Seq<char>, from: Option<remote::RemoteView>) -> bool {
    match from {
        None => f is Nowhere,
        Some(remote::RemoteView::Http { base, repo, token }) => f is Http && f->url@ == http_object(base, repo, hash)
            && model::opt_text(f->token) == token,
        Some(remote::RemoteView::Ssh { user_host, root, repo }) => f is Ssh && f->user_host@ == user_host
            && remote::holds_object(f->path@, remote::remote_dir(root, repo), hash),
    }
}

/// What a remote repository that may be given says.
pub open spec fn opt_remote(o: Option<RemoteSpec>) -> Option<remote::RemoteView> {
    match o {
        Some(s) => Some(s@),
        None => None,
    }
}

/// How an object that is not stored here is had.
pub fn ensure_object_present(hash: &str, from: &Option<RemoteSpec>) -> (r: Fetch)
    requires
        *from is Some && from->0 is Ssh ==> long_enough(hash@) && objects::can_shard(hash@),
    ensures
        fetches(r, hash@, opt_remote(*from)),
{
    match from {
        None => Fetch::Nowhere,
        Some(RemoteSpec::Http { base, repo, token }) => Fetch::Http {
            url: object_url(base.as_str(), repo.as_str(), hash),
            token: model::copy_opt(token),
        },
        Some(RemoteSpec::Ssh { user_host, root, repo }) => {
            let dir = remote_repo_dir(root.as_str(), repo.as_str());
            let path = remote_object_path(dir.as_str(), hash);
            Fetch::Ssh { user_host: user_host.clone(), path }
        },
    }
}

// ---------------------------------------------------------------------------------------
// Laws
// ---------------------------------------------------------------------------------------
/// Merging a commit that ours already builds on changes nothing: the files stay ours, without
/// any clash.
pub proof fn law_merge_of_an_ancestor(
    c: history::CommitsView,
    t: walk::TreesView,
    l: changes::LayersView,
    ours: Seq<char>,
    theirs: Seq<char>,
)
    requires
        c.dom().finite(),
        history::line(c, ours).contains(theirs),
        merge_sides(c, t, l, ours, theirs) is Ok,
    ensures
        ({
            let (b, o, h) = merge_sides(c, t, l, ours, theirs)->Ok_0;
            merge::agreed(b, o, h) == o && merge::clash_paths(b, o, h) == Set::<Seq<char>>::empty()
        }),
{
    history::law_ancestor_of_descendant(c, ours, theirs);
    let (b, o, h) = merge_sides(c, t, l, ours, theirs)->Ok_0;
    merge::law_merge_only_ours(b, o);
}

/// Rebasing a commit that the other builds on has nothing to carry over.
pub proof fn law_rebase_of_an_ancestor(c: history::CommitsView, head: Seq<char>, onto: Seq<char>)
    requires
        c.dom().finite(),
        history::base_of(c, head, onto) == head,
        rebase_steps(c, head, onto) is Ok,
    ensures
        rebase_steps(c, head, onto)->Ok_0.len() == 0,
{
}

/// Picking a commit onto its own parent gives the files of that commit.
pub proof fn law_pick_onto_parent(
    c: history::CommitsView,
    t: walk::TreesView,
    l: changes::LayersView,
    target: Seq<char>,
)
    requires
        c.contains_key(target),
        c[target].parents.len() > 0,
        picked_files(c, t, l, target, c[target].parents[0]) is Ok,
    ensures
        picked_files(c, t, l, target, c[target].parents[0]) == told(c[target], t, l),
{
    let a = told(c[c[target].parents[0]], t, l)->Ok_0;
    let b = told(c[target], t, l)->Ok_0;
    changes::law_patch_round_trip(a, b);
}

/// A step of a rebase on top of the commit that it is compared with gives the files that the old
/// commit has.
pub proof fn law_step_in_place(
    c: history::CommitsView,
    t: walk::TreesView,
    l: changes::LayersView,
    s: StepView,
)
    requires
        c.contains_key(s.against),
        step_files(c, t, l, s, c[s.against]) is Ok,
    ensures
        step_files(c, t, l, s, c[s.against]) == told(s.commit, t, l),
{
    let a = told(c[s.against], t, l)->Ok_0;
    let b = told(s.commit, t, l)->Ok_0;
    changes::law_patch_round_trip(a, b);
}

/// A name stands for the commit that the branch of that name tells, and only where there is no
/// such branch for the commit of that name.
pub proof fn law_branches_come_before_commits(name: Seq<char>, id: Seq<char>, rest: Seq<char>, is_commit: bool)
    requires
        !id.contains('\n'),
        text::trimmed(id) == id,
    ensures
        named(name, Some(id + seq!['\n'] + rest), is_commit) == Some(id),
        named(name, None, true) == Some(name),
        named(name, None, false) is None,
{
    text::law_first_line_ends_at_the_break(id, rest);
}

/// A difference leads from the files of the commit that is named, or of the first parent where
/// none is named, to the files of the other.
pub proof fn law_difference_is_between_the_commits(
    c: history::CommitsView,
    t: walk::TreesView,
    l: changes::LayersView,
    from: Option<Seq<char>>,
    start: Seq<char>,
    to: Seq<char>,
)
    requires
        c.contains_key(to),
        c.contains_key(start),
        changes::effective(c[to], t, l) is Ok,
        changes::effective(c[start], t, l) is Ok,
        match from {
            Some(id) => start == id,
            None => if c[to].parents.len() > 0 {
                start == c[to].parents[0]
            } else {
                start == to
            },
        },
    ensures
        diff_ends(c, t, l, from, to) == Ok::<(model::Files, model::Files), ErrorView>(
            (changes::effective(c[start], t, l)->Ok_0, changes::effective(c[to], t, l)->Ok_0),
        ),
{
}

/// A difference tells each path as added, modified or deleted by what both ends have there, and
/// tells each once.
pub proof fn law_difference_tells_each_path(d: Diff, a: model::Files, b: model::Files, p: Seq<char>)
    requires
        a.dom().finite(),
        b.dom().finite(),
        tells(d, a, b),
    ensures
        text::texts(d.added@).contains(p) <==> b.contains_key(p) && !a.contains_key(p),
        text::texts(d.deleted@).contains(p) <==> a.contains_key(p) && !b.contains_key(p),
        text::texts(d.modified@).contains(p) <==> a.contains_key(p) && b.contains_key(p) && a[p] != b[p],
        text::texts(d.added@).no_duplicates(),
        text::texts(d.deleted@).no_duplicates(),
        text::texts(d.modified@).no_duplicates(),
{
    strmap::law_ascending_lists_each_member(changes::added_paths(a, b), p);
    strmap::law_ascending_lists_each_member(changes::added_paths(b, a), p);
    strmap::law_ascending_lists_each_member(changes::modified_paths(a, b), p);
}

/// A merge is one of the files of ours and theirs over those of the commit where their lines meet,
/// or of the first commit where they do not.
pub proof fn law_merge_is_over_the_common_ancestor(
    c: history::CommitsView,
    t: walk::TreesView,
    l: changes::LayersView,
    ours: Seq<char>,
    theirs: Seq<char>,
    base: Seq<char>,
)
    requires
        c.contains_key(ours),
        c.contains_key(theirs),
        c.contains_key(base),
        !history::endless(c, ours),
        !history::endless(c, theirs),
        match history::first_shared(history::line(c, ours), history::line(c, theirs)) {
            Some(id) => base == id,
            None => base == "cmt_0000000"@,
        },
        changes::effective(c[base], t, l) is Ok,
        changes::effective(c[ours], t, l) is Ok,
        changes::effective(c[theirs], t, l) is Ok,
    ensures
        merge_sides(c, t, l, ours, theirs) == Ok::<(model::Files, model::Files, model::Files), ErrorView>(
            (
                changes::effective(c[base], t, l)->Ok_0,
                changes::effective(c[ours], t, l)->Ok_0,
                changes::effective(c[theirs], t, l)->Ok_0,
            ),
        ),
{
}

/// A picked commit brings its change to the current files: what it changed against its first
/// parent is as it has it, and the rest is as it is here.
pub proof fn law_pick_brings_the_change(
    c: history::CommitsView,
    t: walk::TreesView,
    l: changes::LayersView,
    target: Seq<char>,
    head: Seq<char>,
    p: Seq<char>,
)
    requires
        c.contains_key(target),
        c.contains_key(head),
        c[target].parents.len() > 0,
        c.contains_key(c[target].parents[0]),
        changes::effective(c[target], t, l) is Ok,
        changes::effective(c[head], t, l) is Ok,
        changes::effective(c[c[target].parents[0]], t, l) is Ok,
    ensures
        picked_files(c, t, l, target, head) is Ok,
        ({
            let r = picked_files(c, t, l, target, head)->Ok_0;
            let before = changes::effective(c[c[target].parents[0]], t, l)->Ok_0;
            let after = changes::effective(c[target], t, l)->Ok_0;
            let here = changes::effective(c[head], t, l)->Ok_0;
            &&& after.contains_key(p) && !before.contains_pair(p, after[p]) ==> r.contains_pair(p, after[p])
            &&& before.contains_key(p) && !after.contains_key(p) ==> !r.contains_key(p)
            &&& (before.contains_key(p) <==> after.contains_key(p)) && (after.contains_key(p) ==> before[p] == after[p])
                ==> (r.contains_key(p) <==> here.contains_key(p)) && (here.contains_key(p) ==> r[p] == here[p])
        }),
{
    changes::law_replay_carries_the_change(
        changes::effective(c[head], t, l)->Ok_0,
        changes::effective(c[c[target].parents[0]], t, l)->Ok_0,
        changes::effective(c[target], t, l)->Ok_0,
        p,
    );
}

/// A step of a rebase brings the change of its commit to the files of the commit that it builds
/// on: what the commit changed is as it has it, and the rest is as there.
pub proof fn law_step_brings_the_change(
    c: history::CommitsView,
    t: walk::TreesView,
    l: changes::LayersView,
    s: StepView,
    parent: model::CommitView,
    p: Seq<char>,
)
    requires
        c.contains_key(s.against),
        changes::effective(c[s.against], t, l) is Ok,
        changes::effective(s.commit, t, l) is Ok,
        changes::effective(parent, t, l) is Ok,
    ensures
        step_files(c, t, l, s, parent) is Ok,
        ({
            let r = step_files(c, t, l, s, parent)->Ok_0;
            let before = changes::effective(c[s.against], t, l)->Ok_0;
            let after = changes::effective(s.commit, t, l)->Ok_0;
            let here = changes::effective(parent, t, l)->Ok_0;
            &&& after.contains_key(p) && !before.contains_pair(p, after[p]) ==> r.contains_pair(p, after[p])
            &&& before.contains_key(p) && !after.contains_key(p) ==> !r.contains_key(p)
            &&& (before.contains_key(p) <==> after.contains_key(p)) && (after.contains_key(p) ==> before[p] == after[p])
                ==> (r.contains_key(p) <==> here.contains_key(p)) && (here.contains_key(p) ==> r[p] == here[p])
        }),
{
    changes::law_replay_carries_the_change(
        changes::effective(parent, t, l)->Ok_0,
        changes::effective(c[s.against], t, l)->Ok_0,
        changes::effective(s.commit, t, l)->Ok_0,
        p,
    );
}

/// A rebase makes the commits of a line anew from the oldest on, each of them, each compared with
/// its first parent, up to where the line meets the other.
pub proof fn law_rebase_takes_the_line(c: history::CommitsView, head: Seq<char>, onto: Seq<char>)
    requires
        c.contains_key(head),
        c.contains_key(onto),
        !history::endless(c, head),
        !history::endless(c, onto),
        history::first_shared(history::line(c, head), history::line(c, onto)) is Some,
    ensures
        rebase_steps(c, head, onto) is Ok,
        exists|k: int|
            #![trigger history::line(c, head)[k]]
            {
                let line = history::line(c, head);
                let steps = rebase_steps(c, head, onto)->Ok_0;
                &&& 0 <= k < line.len()
                &&& history::line(c, onto).contains(line[k])
                &&& Some(line[k]) == history::first_shared(line, history::line(c, onto))
                &&& steps.len() == k
                &&& forall|i: int|
                    0 <= i < k ==> (#[trigger] steps[i]).commit == c[line[k - 1 - i]] && steps[i].against == line[k - i]
            },
{
    let line = history::line(c, head);
    let base = history::base_of(c, head, onto);
    history::law_rebase_carries_line(c, head, onto);
    history::law_common_ancestor_nearest(c, head, onto);
    let k = choose|k: int|
        {
            &&& 0 <= k < line.len()
            &&& #[trigger] line[k] == base
            &&& history::chain_to(c, head, base, c.dom().len()) == history::ChainView::Done(line.take(k))
        };
    let lo = history::line(c, onto);
    let j = choose|j: int|
        {
            &&& 0 <= j < lo.len()
            &&& #[trigger] lo[j] == base
            &&& forall|i: int| 0 <= i < j ==> !line.contains(#[trigger] lo[i])
        };
    assert(lo.contains(base));
    let ids = line.take(k);
    let cs = history::oldest_first(c, ids);
    let steps = rebase_steps(c, head, onto)->Ok_0;
    assert(steps == steps_for(cs, base));
    history::lemma_line_steps(c, head, c.dom().len());
    assert forall|i: int| 0 <= i < k implies (#[trigger] steps[i]).commit == c[line[k - 1 - i]] && steps[i].against
        == line[k - i] by {
        assert(cs[i] == c[ids[ids.len() - 1 - i]]);
        assert(ids[k - 1 - i] == line[k - 1 - i]);
        let x = k - 1 - i;
        assert(c[line[x]].parents.len() > 0 && line[x + 1] == c[line[x]].parents[0]);
    }
    assert(history::line(c, onto).contains(line[k]));
}

/// A command on commits needs them: one that cannot be read is named.
pub proof fn law_missing_commits_are_named(
    c: history::CommitsView,
    t: walk::TreesView,
    l: changes::LayersView,
    a: Seq<char>,
    b: Seq<char>,
)
    requires
        !c.contains_key(a),
    ensures
        found(c, a) == Err::<model::CommitView, ErrorView>(ErrorView::Missing { id: a }),
        merge_sides(c, t, l, a, b) == Err::<(model::Files, model::Files, model::Files), ErrorView>(
            ErrorView::Missing { id: a },
        ),
        picked_files(c, t, l, a, b) == Err::<model::Files, ErrorView>(ErrorView::Missing { id: a }),
        rebase_steps(c, b, a) == Err::<Seq<StepView>, ErrorView>(ErrorView::Missing { id: a }),
        diff_ends(c, t, l, None, a) == Err::<(model::Files, model::Files), ErrorView>(ErrorView::Missing { id: a }),
{
}

/// The first commit of a repository cannot be picked.
pub proof fn law_first_commit_cannot_be_picked(
    c: history::CommitsView,
    t: walk::TreesView,
    l: changes::LayersView,
    target: Seq<char>,
    head: Seq<char>,
)
    requires
        c.contains_key(target),
        c[target].parents.len() == 0,
    ensures
        picked_files(c, t, l, target, head) == Err::<model::Files, ErrorView>(ErrorView::NoParent),
{
}

/// A push to a server sends every needed object that has a name of two bytes at least to its own
/// address, each once, and after them all the bundle.
pub proof fn law_server_push_sends_each_object(base: Seq<char>, repo: Seq<char>, need: Set<Seq<char>>, h: Seq<char>)
    requires
        need.finite(),
    ensures
        http_push(base, repo, need).len() > 0,
        http_push(base, repo, need).last() == (PushView::SendBundle { to: remote::repo_url(base, repo) + "/push"@ }),
        need.contains(h) && vstd::utf8::encode_utf8(h).len() >= 2 ==> http_push(base, repo, need).contains(
            PushView::SendObject { hash: h, to: remote::repo_url(base, repo) + "/obj/"@ + h },
        ),
        http_push(base, repo, need).len() == 1 + need.filter(
            |x: Seq<char>| vstd::utf8::encode_utf8(x).len() >= 2,
        ).len(),
{
    let ks = strmap::lemma_listed(need);
    let pick = |x: Seq<char>| long_enough(x);
    let s = strmap::picked(ks, pick);
    strmap::lemma_picked_contains(ks, pick);
    strmap::lemma_picked_ascending(ks, need, pick);
    let sub = need.filter(pick);
    strmap::law_ascending_lists_each_member(sub, h);
    assert(need.filter(|x: Seq<char>| vstd::utf8::encode_utf8(x).len() >= 2) =~= sub);
    let all = http_push(base, repo, need);
    if need.contains(h) && long_enough(h) {
        assert(ks.contains(h));
        assert(s.contains(h));
        let i = choose|i: int| 0 <= i < s.len() && s[i] == h;
        assert(all[i] == (PushView::SendObject { hash: h, to: remote::repo_url(base, repo) + "/obj/"@ + h }));
    }
}

/// A push over ssh makes the directories first, sends every needed object that has a name of two
/// bytes at least to its place, each once, then the bundle, and has it taken in last.
pub proof fn law_ssh_push_sends_each_object(steps: Seq<PushView>, dir: Seq<char>, need: Set<Seq<char>>, h: Seq<char>)
    requires
        need.finite(),
        ssh_push(steps, dir, need),
    ensures
        steps.len() == 3 + need.filter(|x: Seq<char>| vstd::utf8::encode_utf8(x).len() >= 2).len(),
        steps[0] is Run,
        steps.last() is Run,
        steps[steps.len() - 2] == (PushView::SendBundle { to: dir + "/bundle.json"@ }),
        need.contains(h) && vstd::utf8::encode_utf8(h).len() >= 2 ==> exists|i: int|
            0 < i < steps.len() - 2 && (#[trigger] steps[i]) is SendObject && steps[i]->hash == h
                && remote::holds_object(steps[i]->SendObject_to, dir, h),
{
    let ks = strmap::lemma_listed(need);
    let pick = |x: Seq<char>| long_enough(x);
    let s = strmap::picked(ks, pick);
    strmap::lemma_picked_contains(ks, pick);
    strmap::lemma_picked_ascending(ks, need, pick);
    let sub = need.filter(pick);
    strmap::law_ascending_lists_each_member(sub, h);
    assert(need.filter(|x: Seq<char>| vstd::utf8::encode_utf8(x).len() >= 2) =~= sub);
    if need.contains(h) && long_enough(h) {
        assert(ks.contains(h));
        assert(s.contains(h));
        let i = choose|i: int| 0 <= i < s.len() && s[i] == h;
        assert(sends_object(steps[i + 1], dir, s[i]));
        let k = i + 1;
        assert(steps[k] is SendObject);
    }
}

/// An object is fetched from where a push brings it.
pub proof fn law_objects_are_fetched_where_they_were_brought(f: Fetch, hash: Seq<char>, from: remote::RemoteView)
    requires
        fetches(f, hash, Some(from)),
    ensures
        match from {
            remote::RemoteView::Http { base, repo, token } => f is Http && f->url@ == remote::repo_url(base, repo)
                + "/obj/"@ + hash && model::opt_text(f->token) == token,
            remote::RemoteView::Ssh { user_host, root, repo } => f is Ssh && f->user_host@ == user_host
                && remote::holds_object(f->path@, remote::remote_dir(root, repo), hash),
        },
{
}

/// A commit is blocked exactly where a path that it stages, to be put or to be deleted, and for
/// which the configuration wants a lock, has no live lock of `me`.
pub proof fn law_commit_is_blocked_exactly(
    idx: model::IndexView,
    cfg: model::ConfigView,
    db: locks::LocksView,
    me: Seq<char>,
    now: i64,
)
    requires
        idx.put.dom().finite(),
        idx.del.finite(),
    ensures
        blocked(idx, cfg, db, me, now).len() == 0 <==> forall|p: Seq<char>|
            (idx.put.contains_key(p) || idx.del.contains(p)) && #[trigger] crate::ignore::wants_lock(p, cfg)
                ==> db.contains_key(p) && now <= locks::deadline(db[p]) && db[p].owner == me,
{
    let needed = locks::needs_locks(idx, cfg);
    assert(needed.subset_of(idx.put.dom().union(idx.del)));
    vstd::set_lib::lemma_set_subset_finite(idx.put.dom().union(idx.del), needed);
    let l = locks::live(db, now);
    locks::law_commit_needs_locks(needed, l, me);
    if forall|p: Seq<char>| #[trigger] needed.contains(p) ==> l.contains_key(p) && l[p].owner == me {
        assert forall|p: Seq<char>|
            (idx.put.contains_key(p) || idx.del.contains(p)) && #[trigger] crate::ignore::wants_lock(p, cfg) implies db.contains_key(
            p,
        ) && now <= locks::deadline(db[p]) && db[p].owner == me by {
            assert(needed.contains(p));
        }
    }
    if forall|p: Seq<char>|
        (idx.put.contains_key(p) || idx.del.contains(p)) && #[trigger] crate::ignore::wants_lock(p, cfg)
            ==> db.contains_key(p) && now <= locks::deadline(db[p]) && db[p].owner == me {
        assert forall|p: Seq<char>| #[trigger] needed.contains(p) implies l.contains_key(p) && l[p].owner == me by {
            assert(crate::ignore::wants_lock(p, cfg));
        }
    }
}

/// A rebase makes exactly the commits anew that lead from the current one to the base, from the
/// oldest on, each compared with its first parent, and one without a parent with the base.
pub proof fn law_rebase_makes_each_commit_anew(c: history::CommitsView, head: Seq<char>, onto: Seq<char>, base: Seq<char>, i: int)
    requires
        c.contains_key(head),
        c.contains_key(onto),
        !history::endless(c, head),
        !history::endless(c, onto),
        match history::first_shared(history::line(c, head), history::line(c, onto)) {
            Some(id) => base == id,
            None => base == "cmt_0000000"@,
        },
        history::chain_to(c, head, base, c.dom().len()) is Done,
    ensures
        rebase_steps(c, head, onto) is Ok,
        ({
            let ids = history::chain_to(c, head, base, c.dom().len())->Done_0;
            let steps = rebase_steps(c, head, onto)->Ok_0;
            &&& steps.len() == ids.len()
            &&& 0 <= i < ids.len() ==> {
                let x = c[ids[ids.len() - 1 - i]];
                &&& steps[i].commit == x
                &&& x.parents.len() > 0 ==> steps[i].against == x.parents[0]
                &&& x.parents.len() == 0 ==> steps[i].against == base
            }
        }),
{
}

/// Where one of the lines comes back to itself, a merge and a rebase say so.
pub proof fn law_endless_lines_are_told(
    c: history::CommitsView,
    t: walk::TreesView,
    l: changes::LayersView,
    a: Seq<char>,
    b: Seq<char>,
)
    requires
        c.contains_key(a),
        c.contains_key(b),
        history::endless(c, a),
    ensures
        merge_sides(c, t, l, a, b) == Err::<(model::Files, model::Files, model::Files), ErrorView>(ErrorView::Endless),
        rebase_steps(c, a, b) == Err::<Seq<StepView>, ErrorView>(ErrorView::Endless),
{
}

/// Where the files of a commit cannot be told, the commands that need them say why.
pub proof fn law_unreadable_files_are_told(
    c: history::CommitsView,
    t: walk::TreesView,
    l: changes::LayersView,
    id: Seq<char>,
    why: CommitError,
)
    requires
        c.contains_key(id),
        changes::effective(c[id], t, l) == Err::<model::Files, CommitError>(why),
    ensures
        told(c[id], t, l) == Err::<model::Files, ErrorView>(ErrorView::Unreadable { why }),
        diff_ends(c, t, l, None, id) == Err::<(model::Files, model::Files), ErrorView>(ErrorView::Unreadable { why }),
        diff_ends(c, t, l, Some(id), id) == Err::<(model::Files, model::Files), ErrorView>(
            ErrorView::Unreadable { why },
        ),
{
}

/// Steps, and remote repositories that may be given, say what they hold; a step has its commit and
/// what it is compared with.
pub proof fn law_steps_say_their_fields(v: Seq<RebaseStep>, s: RebaseStep, p: Seq<PushStep>, q: PushStep, r: RemoteSpec, i: int)
    ensures
        step_views(v).len() == v.len(),
        0 <= i < v.len() ==> step_views(v)[i] == v[i]@,
        s@.commit == s.commit@ && s@.against == s.against@,
        push_views(p).len() == p.len(),
        0 <= i < p.len() ==> push_views(p)[i] == p[i]@,
        match q {
            PushStep::SendObject { hash, to } => q@ == (PushView::SendObject { hash: hash@, to: to@ }),
            PushStep::SendBundle { to } => q@ == (PushView::SendBundle { to: to@ }),
            PushStep::Run { script } => q@ == (PushView::Run { script: script@ }),
        },
        opt_remote(Some(r)) == Some(r@),
        opt_remote(None) is None,
{
}

/// Every needed object has a directory exactly where each of them has one.
pub proof fn law_all_have_directories(need: Set<Seq<char>>, h: Seq<char>)
    ensures
        all_sharded(need) && need.contains(h) ==> objects::can_shard(h),
        !objects::can_shard(h) && need.contains(h) ==> !all_sharded(need),
        all_sharded(need) <==> need.filter(|x: Seq<char>| !objects::can_shard(x)) == Set::<Seq<char>>::empty(),
{
    let bad = need.filter(|x: Seq<char>| !objects::can_shard(x));
    if all_sharded(need) {
        assert(bad =~= Set::empty());
    }
    if bad == Set::<Seq<char>>::empty() {
        assert forall|x: Seq<char>| #[trigger] need.contains(x) implies objects::can_shard(x) by {
            assert(!bad.contains(x));
        }
    }
}

/// A push over ssh makes the directories of objects, commits and branches before anything is sent,
/// and runs the script that takes the bundle in after all is sent.
pub proof fn law_ssh_push_begins_and_ends_with_scripts(steps: Seq<PushView>, dir: Seq<char>, need: Set<Seq<char>>)
    requires
        ssh_push(steps, dir, need),
    ensures
        steps.len() >= 3,
        steps[0] == (PushView::Run {
            script: "set -e; mkdir -p \""@ + dir + "/objects\" \""@ + dir + "/commits\" \""@ + dir + "/refs/heads\""@,
        }),
        steps.last() == (PushView::Run { script: remote::APPLY_1@ + remote::quoted(dir) + remote::APPLY_2@ }),
{
}

} // verus!

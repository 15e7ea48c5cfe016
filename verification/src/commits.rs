//! Making commits and moving HEAD.

use vstd::prelude::*;
use vstd::string::*;

use crate::changes;
use crate::model;
use crate::model::{copy_opt, copy_texts, Commit, Config, Head, ReflogEntry};
use crate::text;
use crate::walk;

verus! {

/// A commit with more layers than this is squashed.
pub const LAYER_SQUASH_THRESHOLD: usize = 32;

// ---------------------------------------------------------------------------------------
// Sequence numbers
// ---------------------------------------------------------------------------------------
/// The number that the sequence file says, if any.
pub open spec fn seq_value(s: Seq<char>) -> Option<u64> {
    text::u64_value(text::trimmed(s))
}

/// The number that the sequence file says, if any.
pub fn parse_seq(s: &str) -> (r: Option<u64>)
    ensures
        r == seq_value(s@),
{
    text::parse_u64(text::trim(s).as_str())
}

/// What the sequence file says of `n`.
pub open spec fn seq_line(n: u64) -> Seq<char> {
    text::decimal(n as nat) + "\n"@
}

/// What the sequence file says of `n`.
pub fn seq_text(n: u64) -> (r: String)
    ensures
        r@ == seq_line(n),
{
    text::concat(text::decimal_text(n).as_str(), "\n")
}

/// The number after `n`. It wraps around at the limit of its type.
pub fn next_seq(n: u64) -> (r: u64)
    ensures
        r == (if n == u64::MAX {
            0
        } else {
            n + 1
        }),
{
    n.wrapping_add(1)
}

/// How long to wait for the lock on the sequence file, in all, in nanoseconds.
pub const SEQ_LOCK_TIMEOUT: u128 = 30000000000;

/// What to do where the lock on the sequence file is held: give up after the time is over
/// (`None`), else wait for so many milliseconds, longer each time up to a tenth of a second.
/// `attempts` counts this attempt too.
pub fn seq_lock_wait(elapsed: u128, attempts: u64) -> (r: Option<u64>)
    ensures
        match r {
            None => elapsed > SEQ_LOCK_TIMEOUT,
            Some(ms) => elapsed <= SEQ_LOCK_TIMEOUT && ms == (if attempts * 5 < 100 {
                attempts * 5
            } else {
                100
            }),
        },
{
    if elapsed > SEQ_LOCK_TIMEOUT {
        return None;
    }
    if attempts < 20 {
        Some(attempts * 5)
    } else {
        Some(100)
    }
}

/// The identifier of the commit with the number `seq`.
pub open spec fn commit_id(seq: u64) -> Seq<char> {
    "cmt_"@ + text::zero_padded(text::decimal(seq as nat), 7)
}

/// The identifier of the commit with the number `seq`.
pub fn id_of(seq: u64) -> (r: String)
    ensures
        r@ == commit_id(seq),
{
    text::concat("cmt_", text::padded_decimal(seq, 7).as_str())
}

// ---------------------------------------------------------------------------------------
// Commits
// ---------------------------------------------------------------------------------------
/// Whether a commit may have this message: it says anything at all.
pub fn message_ok(message: &str) -> (r: bool)
    ensures
        r == (text::trimmed(message@).len() > 0),
{
    !text::trim(message).as_str().is_empty()
}

/// The layers of a commit that puts `layer` on top of `old`.
pub open spec fn stacked(old: model::CommitView, layer: Seq<char>) -> Seq<Seq<char>> {
    old.layers.push(layer)
}

/// The commit after `old`, which is stored under `old_id`, with one more layer. Where these are
/// too many layers, its files become its base.
pub open spec fn next_commit(
    old: model::CommitView,
    old_id: Seq<char>,
    message: Seq<char>,
    layer: Seq<char>,
    root: Seq<char>,
    seq: u64,
    ts: i64,
) -> model::CommitView {
    let squash = stacked(old, layer).len() > LAYER_SQUASH_THRESHOLD;
    model::CommitView {
        id: commit_id(seq),
        parents: seq![old_id],
        message,
        seq,
        base_root: if squash {
            root
        } else {
            old.base_root
        },
        layers: if squash {
            Seq::empty()
        } else {
            stacked(old, layer)
        },
        effective_root: root,
        ts,
    }
}

fn one_text(s: &str) -> (r: Vec<String>)
    ensures
        text::texts(r@) == seq![s@],
{
    let mut v: Vec<String> = Vec::new();
    v.push(String::from_str(s));
    assert(text::texts(v@) =~= seq![s@]);
    v
}

/// The commit after `old`, which is stored under `old_id`, with one more layer. `root` is the
/// tree of its files.
pub fn new_commit(old: &Commit, old_id: &str, message: &str, layer: &str, root: &str, seq: u64, ts: i64) -> (r: Commit)
    ensures
        r@ == next_commit(old@, old_id@, message@, layer@, root@, seq, ts),
{
    let mut layers = copy_texts(&old.layers);
    let ghost before = text::texts(layers@);
    layers.push(String::from_str(layer));
    assert(text::texts(layers@) =~= before.push(layer@));
    let mut base_root = old.base_root.clone();
    if layers.len() > LAYER_SQUASH_THRESHOLD {
        base_root = String::from_str(root);
        layers = Vec::new();
        assert(text::texts(layers@) =~= Seq::empty());
    }
    Commit {
        id: id_of(seq),
        parents: one_text(old_id),
        message: String::from_str(message),
        seq,
        base_root,
        layers,
        effective_root: String::from_str(root),
        ts,
    }
}

/// The commit `old`, made anew on top of the commit `parent_id` with the files of the tree
/// `root`.
pub open spec fn rebased(
    old: model::CommitView,
    parent_id: Seq<char>,
    root: Seq<char>,
    seq: u64,
    ts: i64,
) -> model::CommitView {
    model::CommitView {
        id: commit_id(seq),
        parents: seq![parent_id],
        message: old.message,
        seq,
        base_root: root,
        layers: Seq::empty(),
        effective_root: root,
        ts,
    }
}

/// The commit `old`, made anew on top of the commit `parent_id` with the files of the tree
/// `root`.
pub fn rebased_commit(old: &Commit, parent_id: &str, root: &str, seq: u64, ts: i64) -> (r: Commit)
    ensures
        r@ == rebased(old@, parent_id@, root@, seq, ts),
{
    let r = Commit {
        id: id_of(seq),
        parents: one_text(parent_id),
        message: old.message.clone(),
        seq,
        base_root: String::from_str(root),
        layers: Vec::new(),
        effective_root: String::from_str(root),
        ts,
    };
    assert(r@.layers =~= Seq::empty());
    r
}

/// The commit that every repository starts with. `root` is the empty tree.
pub open spec fn root_commit(root: Seq<char>, ts: i64) -> model::CommitView {
    model::CommitView {
        id: model::ROOT_COMMIT@,
        parents: Seq::empty(),
        message: "initial"@,
        seq: 0,
        base_root: root,
        layers: Seq::empty(),
        effective_root: root,
        ts,
    }
}

/// The commit that every repository starts with.
pub fn initial_commit(root: &str, ts: i64) -> (r: Commit)
    ensures
        r@ == root_commit(root@, ts),
{
    let r = Commit {
        id: String::from_str(model::ROOT_COMMIT),
        parents: Vec::new(),
        message: String::from_str("initial"),
        seq: 0,
        base_root: String::from_str(root),
        layers: Vec::new(),
        effective_root: String::from_str(root),
        ts,
    };
    assert(r@.parents =~= Seq::empty());
    assert(r@.layers =~= Seq::empty());
    r
}

/// The configuration that every repository starts with.
pub open spec fn first_config() -> model::ConfigView {
    model::ConfigView {
        ignore: seq![model::POP_DIR@, ".git"@, "node_modules"@, "target"@, "dist"@, "build"@],
        sparse: Seq::empty(),
        lock_required: seq![
            "*.blend"@,
            "*.fbx"@,
            "*.psd"@,
            "*.ai"@,
            "*.uasset"@,
            "*.umap"@,
            "*.unity"@,
            "*.scene"@,
            "*.kra"@,
            "*.clip"@,
        ],
    }
}

fn add_text(v: &mut Vec<String>, s: &str)
    ensures
        text::texts(final(v)@) == text::texts(old(v)@).push(s@),
{
    let ghost before = text::texts(v@);
    v.push(String::from_str(s));
    assert(text::texts(v@) =~= before.push(s@));
}

/// The configuration that every repository starts with.
pub fn initial_config() -> (r: Config)
    ensures
        r@ == first_config(),
{
    let mut ignore: Vec<String> = Vec::new();
    assert(text::texts(ignore@) =~= Seq::empty());
    add_text(&mut ignore, model::POP_DIR);
    add_text(&mut ignore, ".git");
    add_text(&mut ignore, "node_modules");
    add_text(&mut ignore, "target");
    add_text(&mut ignore, "dist");
    add_text(&mut ignore, "build");
    let mut lock_required: Vec<String> = Vec::new();
    assert(text::texts(lock_required@) =~= Seq::empty());
    add_text(&mut lock_required, "*.blend");
    add_text(&mut lock_required, "*.fbx");
    add_text(&mut lock_required, "*.psd");
    add_text(&mut lock_required, "*.ai");
    add_text(&mut lock_required, "*.uasset");
    add_text(&mut lock_required, "*.umap");
    add_text(&mut lock_required, "*.unity");
    add_text(&mut lock_required, "*.scene");
    add_text(&mut lock_required, "*.kra");
    add_text(&mut lock_required, "*.clip");
    let r = Config { ignore, sparse: Vec::new(), lock_required };
    assert(r@ =~= first_config());
    r
}

/// Where HEAD stands in a new repository.
pub fn initial_head() -> (r: Head)
    ensures
        r@ == (model::HeadView { reference: Some("refs/heads/main"@), detached: None }),
{
    Head { reference: Some(String::from_str("refs/heads/main")), detached: None }
}

// ---------------------------------------------------------------------------------------
// HEAD
// ---------------------------------------------------------------------------------------
/// Where the current commit is told.
pub enum Place {
    /// Here: HEAD is detached at this commit.
    Commit(String),
    /// By this branch.
    Branch(String),
    /// Nowhere.
    Nowhere,
}

/// What a `Place` says.
pub enum PlaceView {
    Commit { id: Seq<char> },
    Branch { reference: Seq<char> },
    Nowhere,
}

impl View for Place {
    type V = PlaceView;

    open spec fn view(&self) -> PlaceView {
        match self {
            Place::Commit(id) => PlaceView::Commit { id: id@ },
            Place::Branch(reference) => PlaceView::Branch { reference: reference@ },
            Place::Nowhere => PlaceView::Nowhere,
        }
    }
}

/// Where the current commit is told.
pub open spec fn place_of(h: model::HeadView) -> PlaceView {
    match h.detached {
        Some(id) => PlaceView::Commit { id },
        None => match h.reference {
            Some(reference) => PlaceView::Branch { reference },
            None => PlaceView::Nowhere,
        },
    }
}

/// Where the current commit is told.
pub fn current_place(h: &Head) -> (r: Place)
    ensures
        r@ == place_of(h@),
{
    match &h.detached {
        Some(id) => Place::Commit(id.clone()),
        None => match &h.reference {
            Some(reference) => Place::Branch(reference.clone()),
            None => Place::Nowhere,
        },
    }
}

/// What has to be written so that the current commit is a new one.
pub enum HeadMove {
    /// HEAD itself.
    Head(Head),
    /// The branch `reference`, which then names the commit.
    Branch { reference: String },
    /// Nothing: HEAD stands nowhere.
    Invalid,
}

/// `m` makes `id` the current commit: a detached HEAD moves itself, else its branch moves.
pub open spec fn moves_to(m: HeadMove, h: model::HeadView, id: Seq<char>) -> bool {
    match place_of(h) {
        PlaceView::Commit { .. } => m is Head && m->Head_0@ == (model::HeadView {
            reference: h.reference,
            detached: Some(id),
        }),
        PlaceView::Branch { reference } => m is Branch && m->reference@ == reference,
        PlaceView::Nowhere => m is Invalid,
    }
}

/// What has to be written so that the current commit is `id`.
pub fn advance_head(h: &Head, id: &str) -> (r: HeadMove)
    ensures
        moves_to(r, h@, id@),
{
    match current_place(h) {
        Place::Commit(_) => HeadMove::Head(
            Head { reference: copy_opt(&h.reference), detached: Some(String::from_str(id)) },
        ),
        Place::Branch(reference) => HeadMove::Branch { reference },
        Place::Nowhere => HeadMove::Invalid,
    }
}

/// HEAD after a checkout of `target`: on the branch of that name, where there is one, else
/// detached at the commit `id`.
pub open spec fn head_at(target: Seq<char>, is_branch: bool, id: Seq<char>) -> model::HeadView {
    if is_branch {
        model::HeadView { reference: Some("refs/heads/"@ + target), detached: None }
    } else {
        model::HeadView { reference: None, detached: Some(id) }
    }
}

/// HEAD after a checkout of `target`.
pub fn checkout_head(target: &str, is_branch: bool, id: &str) -> (r: Head)
    ensures
        r@ == head_at(target@, is_branch, id@),
{
    if is_branch {
        Head { reference: Some(text::concat("refs/heads/", target)), detached: None }
    } else {
        Head { reference: None, detached: Some(String::from_str(id)) }
    }
}

/// What a branch file says of the commit `id`.
pub open spec fn ref_line(id: Seq<char>) -> Seq<char> {
    id + "\n"@
}

/// What a branch file says of the commit `id`.
pub fn ref_text(id: &str) -> (r: String)
    ensures
        r@ == ref_line(id@),
{
    text::concat(id, "\n")
}

/// Whether a branch may have this name: no slash of either kind is in it.
pub fn branch_name_ok(name: &str) -> (r: bool)
    ensures
        r == (!name@.contains('/') && !name@.contains('\\')),
{
    !text::has_char(name, '/') && !text::has_char(name, '\\')
}

/// The commit that a difference starts from, where none is named: the first parent of the
/// commit that it leads to, or that commit itself.
pub open spec fn diff_start(to: model::CommitView, to_id: Seq<char>) -> Seq<char> {
    if to.parents.len() == 0 {
        to_id
    } else {
        to.parents[0]
    }
}

/// The commit that a difference starts from, where none is named.
pub fn diff_from(to: &Commit, to_id: &str) -> (r: String)
    ensures
        r@ == diff_start(to@, to_id@),
{
    if to.parents.len() == 0 {
        String::from_str(to_id)
    } else {
        to.parents[0].clone()
    }
}

/// The commit that a picked commit is compared with: its first parent. There is none for the
/// first commit of a repository, which cannot be picked.
pub fn pick_parent(c: &Commit) -> (r: Option<String>)
    ensures
        model::opt_text(r) == (if c@.parents.len() == 0 {
            None
        } else {
            Some(c@.parents[0])
        }),
{
    if c.parents.len() == 0 {
        None
    } else {
        Some(c.parents[0].clone())
    }
}

/// Puts a move of HEAD behind those of the reflog.
pub fn append_reflog(log: &mut Vec<ReflogEntry>, ts: i64, before: &str, after: &str, action: &str)
    ensures
        model::reflog_views(final(log)@) == model::reflog_views(old(log)@).push(
            (model::ReflogEntryView { ts, old: before@, new: after@, action: action@ }),
        ),
{
    let ghost start = model::reflog_views(log@);
    log.push(
        ReflogEntry {
            ts,
            old: String::from_str(before),
            new: String::from_str(after),
            action: String::from_str(action),
        },
    );
    assert(model::reflog_views(log@) =~= start.push(
        model::ReflogEntryView { ts, old: before@, new: after@, action: action@ },
    ));
}

// ---------------------------------------------------------------------------------------
// Laws
// ---------------------------------------------------------------------------------------
/// No commit has more layers than are squashed.
pub proof fn law_layers_stay_few(
    old: model::CommitView,
    old_id: Seq<char>,
    message: Seq<char>,
    layer: Seq<char>,
    root: Seq<char>,
    seq: u64,
    ts: i64,
)
    ensures
        next_commit(old, old_id, message, layer, root, seq, ts).layers.len() <= LAYER_SQUASH_THRESHOLD,
{
}

/// A commit holds what was staged on top of its parent, squashed or not. This needs that its
/// layer and the tree of its files are stored, and that what is staged both to be put and to be
/// deleted is there to be deleted.
pub proof fn law_commit_holds_what_was_staged(
    old: model::CommitView,
    idx: model::IndexView,
    old_id: Seq<char>,
    message: Seq<char>,
    layer: Seq<char>,
    root: Seq<char>,
    seq: u64,
    ts: i64,
    t: walk::TreesView,
    l: changes::LayersView,
)
    requires
        changes::effective(old, t, l) is Ok,
        idx.put.dom().finite(),
        idx.del.finite(),
        forall|p: Seq<char>|
            #[trigger] idx.put.contains_key(p) && idx.del.contains(p) ==> changes::effective(
                old,
                t,
                l,
            )->Ok_0.contains_key(p),
        l.contains_key(layer),
        l[layer] == changes::layer_changes(changes::effective(old, t, l)->Ok_0, idx),
        walk::flat(t, root) == Ok::<model::Files, walk::TreeError>(
            changes::staged(changes::effective(old, t, l)->Ok_0, idx),
        ),
    ensures
        changes::effective(next_commit(old, old_id, message, layer, root, seq, ts), t, l) == Ok::<
            model::Files,
            changes::CommitError,
        >(changes::staged(changes::effective(old, t, l)->Ok_0, idx)),
{
    let parent = changes::effective(old, t, l)->Ok_0;
    let new = next_commit(old, old_id, message, layer, root, seq, ts);
    changes::law_layer_makes_the_staged_files(parent, idx);
    if stacked(old, layer).len() <= LAYER_SQUASH_THRESHOLD {
        assert(new.layers.drop_last() =~= old.layers);
        assert(new.layers.last() == layer);
    }
}

/// A commit that was made anew holds the files of its tree.
pub proof fn law_rebased_commit_holds_its_tree(
    old: model::CommitView,
    parent_id: Seq<char>,
    root: Seq<char>,
    seq: u64,
    ts: i64,
    t: walk::TreesView,
    l: changes::LayersView,
)
    requires
        walk::flat(t, root) is Ok,
    ensures
        changes::effective(rebased(old, parent_id, root, seq, ts), t, l) == Ok::<model::Files, changes::CommitError>(
            walk::flat(t, root)->Ok_0,
        ),
{
}

/// The sequence file gives back the number that was written to it.
pub proof fn law_seq_round_trip(n: u64)
    ensures
        seq_value(seq_line(n)) == Some(n),
{
    text::law_decimal_round_trip(n);
    text::lemma_decimal_plain(n as nat);
    text::lemma_trim_line(text::decimal(n as nat));
}

/// A branch file gives back the commit that was written to it, provided that the identifier
/// neither begins nor ends with white space and holds no line break.
pub proof fn law_ref_round_trip(id: Seq<char>)
    requires
        text::trimmed(id) == id,
        !id.contains('\n'),
    ensures
        text::first_line(ref_line(id)) == id,
{
    let s = ref_line(id);
    reveal_strlit("\n");
    text::lemma_find(s, '\n');
    let k = text::find(s, '\n');
    assert(s[id.len() as int] == '\n');
    if k < id.len() {
        assert(id[k] == s[k]);
        assert(id.contains('\n'));
    }
    assert(s.take(k) =~= id);
}

/// After HEAD has moved to a commit, that commit is the current one: a detached HEAD names it,
/// and a HEAD on a branch stays on the branch that names it.
pub proof fn law_head_moves(m: HeadMove, h: model::HeadView, id: Seq<char>)
    requires
        moves_to(m, h, id),
    ensures
        match m {
            HeadMove::Head(n) => place_of(n@) == (PlaceView::Commit { id }),
            HeadMove::Branch { reference } => place_of(h) == (PlaceView::Branch { reference: reference@ }),
            HeadMove::Invalid => place_of(h) == PlaceView::Nowhere,
        },
{
}

/// A commit keeps what it was made with: its message to the letter, the commit before it as its
/// only parent, the tree of its files, its number and its time.
pub proof fn law_commit_is_as_it_was_made(
    old: model::CommitView,
    old_id: Seq<char>,
    message: Seq<char>,
    layer: Seq<char>,
    root: Seq<char>,
    seq: u64,
    ts: i64,
)
    ensures
        ({
            let c = next_commit(old, old_id, message, layer, root, seq, ts);
            &&& c.message == message
            &&& c.parents.len() == 1 && c.parents[0] == old_id
            &&& c.effective_root == root
            &&& c.seq == seq
            &&& c.ts == ts
            &&& c.id == commit_id(seq)
        }),
{
}

/// A commit puts its layer on top of those of the commit before it, on the same base, until these
/// would be more than 32; then its own files are its base, and it has no layer.
pub proof fn law_layers_are_stacked_or_squashed(
    old: model::CommitView,
    old_id: Seq<char>,
    message: Seq<char>,
    layer: Seq<char>,
    root: Seq<char>,
    seq: u64,
    ts: i64,
)
    ensures
        ({
            let c = next_commit(old, old_id, message, layer, root, seq, ts);
            &&& old.layers.len() < 32 ==> c.layers == old.layers.push(layer) && c.base_root == old.base_root
            &&& old.layers.len() >= 32 ==> c.layers.len() == 0 && c.base_root == root
        }),
{
}

/// A commit that is made anew keeps its message, hangs on the new parent alone, and has the files
/// of its tree without any layer.
pub proof fn law_rebased_commit_keeps_its_message(
    old: model::CommitView,
    parent_id: Seq<char>,
    root: Seq<char>,
    seq: u64,
    ts: i64,
)
    ensures
        ({
            let c = rebased(old, parent_id, root, seq, ts);
            &&& c.message == old.message
            &&& c.parents.len() == 1 && c.parents[0] == parent_id
            &&& c.base_root == root && c.effective_root == root && c.layers.len() == 0
            &&& c.seq == seq && c.ts == ts && c.id == commit_id(seq)
        }),
{
}

/// The identifier of a commit is `cmt_` with its number in decimal behind it, in seven digits at
/// least; so that commits with different numbers have different identifiers.
pub proof fn law_identifiers_tell_numbers_apart(a: u64, b: u64)
    ensures
        text::has_prefix(commit_id(a), "cmt_"@),
        text::digits_value(commit_id(a).skip(4)) == Some(a as nat),
        commit_id(a).len() >= 11,
        text::has_suffix(commit_id(a), text::decimal(a as nat)),
        text::decimal(a as nat).len() <= 7 ==> commit_id(a).len() == 11,
        commit_id(a) == commit_id(b) ==> a == b,
{
    reveal_strlit("cmt_");
    lemma_identifier(a);
    lemma_identifier(b);
}

proof fn lemma_identifier(a: u64)
    ensures
        commit_id(a).len() >= 11,
        text::decimal(a as nat).len() <= 7 ==> commit_id(a).len() == 11,
        text::has_prefix(commit_id(a), "cmt_"@),
        text::digits_value(commit_id(a).skip(4)) == Some(a as nat),
        text::has_suffix(commit_id(a), text::decimal(a as nat)),
{
    reveal_strlit("cmt_");
    let d = text::decimal(a as nat);
    let z = text::zero_padded(d, 7);
    text::law_zeros_keep_the_value(d, 7);
    text::lemma_decimal_value(a as nat);
    let id = commit_id(a);
    assert(id.skip(4) =~= z);
    assert(id.take("cmt_"@.len() as int) =~= "cmt_"@);
    assert(id.skip(id.len() - d.len()) =~= z.skip(z.len() - d.len()));
}

/// A repository starts with one commit, which has no parent, no layer and the number 0, and whose
/// files are those of the tree that it was made with.
pub proof fn law_first_commit_holds_its_tree(root: Seq<char>, ts: i64)
    ensures
        root_commit(root, ts).parents.len() == 0,
        root_commit(root, ts).layers.len() == 0,
        root_commit(root, ts).base_root == root,
        root_commit(root, ts).effective_root == root,
        root_commit(root, ts).seq == 0,
        root_commit(root, ts).ts == ts,
        root_commit(root, ts).message == "initial"@,
        root_commit(root, ts).id == commit_id(0),
{
    reveal_strlit("cmt_");
    reveal_strlit("cmt_0000000");
    assert(text::decimal(0).len() == 1);
    assert(text::zero_padded(text::decimal(0), 7) =~= seq!['0', '0', '0', '0', '0', '0', '0']);
    assert(commit_id(0) =~= model::ROOT_COMMIT@);
}

/// The current commit is the one that HEAD is detached at; only where it is not, the branch of
/// HEAD tells it.
pub proof fn law_detached_head_comes_first(id: Seq<char>, reference: Seq<char>, other: Option<Seq<char>>)
    ensures
        place_of((model::HeadView { reference: other, detached: Some(id) })) == (PlaceView::Commit { id }),
        place_of((model::HeadView { reference: Some(reference), detached: None })) == (PlaceView::Branch { reference }),
        place_of((model::HeadView { reference: None, detached: None })) == PlaceView::Nowhere,
{
}

/// A commit moves a detached HEAD and leaves its branch alone, and else moves the branch of HEAD
/// and leaves HEAD alone.
pub proof fn law_moves_stay_in_place(m: HeadMove, h: model::HeadView, id: Seq<char>)
    requires
        moves_to(m, h, id),
    ensures
        h.detached is Some ==> m is Head && m->Head_0@.detached == Some(id) && m->Head_0@.reference == h.reference,
        h.detached is None && h.reference is Some ==> m is Branch && m->reference@ == h.reference->0,
        h.detached is None && h.reference is None ==> m is Invalid,
{
}

/// After a checkout of a branch HEAD is on that branch; after one of anything else it is detached
/// at the commit.
pub proof fn law_checkout_sets_head(target: Seq<char>, id: Seq<char>)
    ensures
        place_of(head_at(target, true, id)) == (PlaceView::Branch { reference: "refs/heads/"@ + target }),
        head_at(target, true, id).detached is None,
        place_of(head_at(target, false, id)) == (PlaceView::Commit { id }),
        head_at(target, false, id).reference is None,
{
}

/// A branch file holds the identifier and a line break, and nothing else.
pub proof fn law_branch_file_is_one_line(id: Seq<char>)
    ensures
        ref_line(id).len() == id.len() + 1,
        ref_line(id).take(id.len() as int) == id,
        ref_line(id).last() == '\n',
{
    reveal_strlit("\n");
    assert(ref_line(id).take(id.len() as int) =~= id);
}

/// Without another start, a difference leads from the first parent of a commit to the commit, and
/// of a commit without a parent from itself.
pub proof fn law_difference_starts_at_the_parent(to: model::CommitView, to_id: Seq<char>)
    ensures
        to.parents.len() > 0 ==> diff_start(to, to_id) == to.parents[0],
        to.parents.len() == 0 ==> diff_start(to, to_id) == to_id,
{
}

/// A new repository ignores its own directory, that of git and those that builds make, has no
/// sparse patterns, and asks for locks on the files of ten kinds of tools.
pub proof fn law_first_config_ignores_and_locks(ext: Seq<char>)
    ensures
        first_config().ignore.to_set() == set![".pop"@, ".git"@, "node_modules"@, "target"@, "dist"@, "build"@],
        first_config().sparse.len() == 0,
        first_config().lock_required.len() == 10,
        first_config().lock_required.contains("*."@ + ext) <==> set![
            "blend"@,
            "fbx"@,
            "psd"@,
            "ai"@,
            "uasset"@,
            "umap"@,
            "unity"@,
            "scene"@,
            "kra"@,
            "clip"@,
        ].contains(ext),
{
    let i = first_config().ignore;
    let want = set![".pop"@, ".git"@, "node_modules"@, "target"@, "dist"@, "build"@];
    assert forall|x: Seq<char>| i.to_set().contains(x) <==> want.contains(x) by {
        if want.contains(x) {
            assert(i[0] == ".pop"@ && i[1] == ".git"@ && i[2] == "node_modules"@ && i[3] == "target"@ && i[4]
                == "dist"@ && i[5] == "build"@);
        }
    }
    assert(i.to_set() =~= want);
    lemma_lock_patterns(ext);
}

proof fn lemma_lock_patterns(ext: Seq<char>)
    ensures
        first_config().lock_required.contains("*."@ + ext) <==> set![
            "blend"@,
            "fbx"@,
            "psd"@,
            "ai"@,
            "uasset"@,
            "umap"@,
            "unity"@,
            "scene"@,
            "kra"@,
            "clip"@,
        ].contains(ext),
{
    let l = first_config().lock_required;
    let names = seq![
        "blend"@,
        "fbx"@,
        "psd"@,
        "ai"@,
        "uasset"@,
        "umap"@,
        "unity"@,
        "scene"@,
        "kra"@,
        "clip"@,
    ];
    reveal_strlit("*.");
    reveal_strlit("*.blend");
    reveal_strlit("*.fbx");
    reveal_strlit("*.psd");
    reveal_strlit("*.ai");
    reveal_strlit("*.uasset");
    reveal_strlit("*.umap");
    reveal_strlit("*.unity");
    reveal_strlit("*.scene");
    reveal_strlit("*.kra");
    reveal_strlit("*.clip");
    reveal_strlit("blend");
    reveal_strlit("fbx");
    reveal_strlit("psd");
    reveal_strlit("ai");
    reveal_strlit("uasset");
    reveal_strlit("umap");
    reveal_strlit("unity");
    reveal_strlit("scene");
    reveal_strlit("kra");
    reveal_strlit("clip");
    assert(l[0] =~= "*."@ + names[0]);
    assert(l[1] =~= "*."@ + names[1]);
    assert(l[2] =~= "*."@ + names[2]);
    assert(l[3] =~= "*."@ + names[3]);
    assert(l[4] =~= "*."@ + names[4]);
    assert(l[5] =~= "*."@ + names[5]);
    assert(l[6] =~= "*."@ + names[6]);
    assert(l[7] =~= "*."@ + names[7]);
    assert(l[8] =~= "*."@ + names[8]);
    assert(l[9] =~= "*."@ + names[9]);
    let whole = "*."@ + ext;
    assert(whole.skip(2) =~= ext);
    if l.contains(whole) {
        let k = choose|k: int| 0 <= k < l.len() && l[k] == whole;
        assert(l[k] == "*."@ + names[k]);
        assert(("*."@ + names[k]).skip(2) =~= names[k]);
        assert(names[k] == ext);
    }
    if names.contains(ext) {
        let k = choose|k: int| 0 <= k < names.len() && names[k] == ext;
        assert(l[k] == whole);
    }
    assert(names.contains(ext) <==> set![
        "blend"@,
        "fbx"@,
        "psd"@,
        "ai"@,
        "uasset"@,
        "umap"@,
        "unity"@,
        "scene"@,
        "kra"@,
        "clip"@,
    ].contains(ext)) by {
        assert(names[0] == "blend"@ && names[1] == "fbx"@ && names[2] == "psd"@ && names[3] == "ai"@ && names[4]
            == "uasset"@ && names[5] == "umap"@ && names[6] == "unity"@ && names[7] == "scene"@ && names[8] == "kra"@
            && names[9] == "clip"@);
    }
}

/// The sequence file is waited for half a minute, and no longer.
pub proof fn law_half_a_minute_is_waited()
    ensures
        SEQ_LOCK_TIMEOUT == 30 * 1000 * 1000 * 1000,
        LAYER_SQUASH_THRESHOLD == 32,
{
}

/// The sequence file says the number that stands in it, whatever white space is around it, and
/// none where anything else stands there.
pub proof fn law_sequence_file_says_its_number(s: Seq<char>, n: u64)
    ensures
        text::trimmed(s) == text::decimal(n as nat) ==> seq_value(s) == Some(n),
        text::u64_value(text::trimmed(s)) is None ==> seq_value(s) is None,
        text::trimmed(s).len() == 0 ==> seq_value(s) is None,
{
    text::law_decimal_round_trip(n);
}

} // verus!

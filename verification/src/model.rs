//! What a repository is made of: commits, trees, layers, the index, the configuration, HEAD,
//! the reflog, and the bundle in which all of it travels.

use vstd::prelude::*;
use vstd::string::*;

use crate::strmap::{StrMap, StrSet};
use crate::text;

verus! {

/// The directory that holds a repository.
pub const POP_DIR: &'static str = ".pop";

/// The identifier of the commit that every repository starts with.
pub const ROOT_COMMIT: &'static str = "cmt_0000000";

/// What a file of the repository may hold at most, other than an object, in bytes.
pub const MAX_JSON_SIZE: u64 = 104857600;

/// Whether a file of this size is read, other than an object.
pub fn json_size_ok(size: u64) -> (r: bool)
    ensures
        r == (size <= MAX_JSON_SIZE),
{
    size <= MAX_JSON_SIZE
}

/// A map from path to object hash: the files of a commit or of the working tree.
pub type FileMap = StrMap<String>;

/// What a `FileMap` says.
pub type Files = Map<Seq<char>, Seq<char>>;

/// The text of an optional string.
pub open spec fn opt_text(o: Option<String>) -> Option<Seq<char>> {
    match o {
        Some(s) => Some(s@),
        None => None,
    }
}

/// A copy of an optional string.
pub fn copy_opt(o: &Option<String>) -> (r: Option<String>)
    ensures
        opt_text(r) == opt_text(*o),
{
    match o {
        Some(s) => Some(s.clone()),
        None => None,
    }
}

/// A copy of a list of strings.
pub fn copy_texts(v: &Vec<String>) -> (r: Vec<String>)
    ensures
        text::texts(r@) == text::texts(v@),
{
    let mut out: Vec<String> = Vec::new();
    let mut i: usize = 0;
    while i < v.len()
        invariant
            i <= v@.len(),
            text::texts(out@) == text::texts(v@).take(i as int),
        decreases v@.len() - i,
    {
        let ghost before = text::texts(out@);
        out.push(v[i].clone());
        proof {
            assert(text::texts(out@) =~= before.push(v@[i as int]@));
            assert(text::texts(v@).take(i + 1) =~= text::texts(v@).take(i as int).push(
                v@[i as int]@,
            ));
        }
        i = i + 1;
    }
    assert(text::texts(v@).take(i as int) =~= text::texts(v@));
    out
}

/// A copy of a file map.
pub fn copy_files(m: &FileMap) -> (r: FileMap)
    ensures
        r@ == m@,
{
    let mut out: FileMap = StrMap::new();
    let n = m.len();
    let mut i: usize = 0;
    while i < n
        invariant
            i <= n == m.keys().len(),
            crate::strmap::lists(m.keys(), m@.dom()),
            forall|k: Seq<char>| #[trigger] out@.contains_key(k) <==> m.keys().take(i as int).contains(k),
            forall|k: Seq<char>| #[trigger] out@.contains_key(k) ==> m@.contains_key(k) && out@[k] == m@[k],
        decreases n - i,
    {
        let ghost before = out@;
        out.insert(m.key(i).clone(), m.value(i).clone());
        proof {
            let ks = m.keys();
            assert(ks.take(i + 1) =~= ks.take(i as int).push(ks[i as int]));
            assert forall|k: Seq<char>| #[trigger] out@.contains_key(k) <==> ks.take(i + 1).contains(k) by {
                crate::strmap::lemma_push_contains(ks.take(i as int), ks[i as int], k);
                assert(before.contains_key(k) <==> ks.take(i as int).contains(k));
            }
        }
        i = i + 1;
    }
    proof {
        assert(m.keys().take(i as int) =~= m.keys());
        assert(out@ =~= m@);
    }
    out
}

// ---------------------------------------------------------------------------------------
// Configuration
// ---------------------------------------------------------------------------------------
/// The configuration of a repository.
#[derive(Clone, Debug, PartialEq, Eq)]
pub struct Config {
    pub ignore: Vec<String>,
    pub sparse: Vec<String>,
    pub lock_required: Vec<String>,
}

/// What a `Config` says.
#[verifier::ext_equal]
pub struct ConfigView {
    pub ignore: Seq<Seq<char>>,
    pub sparse: Seq<Seq<char>>,
    pub lock_required: Seq<Seq<char>>,
}

impl View for Config {
    type V = ConfigView;

    open spec fn view(&self) -> ConfigView {
        ConfigView {
            ignore: text::texts(self.ignore@),
            sparse: text::texts(self.sparse@),
            lock_required: text::texts(self.lock_required@),
        }
    }
}

impl ConfigView {
    /// The configuration without any pattern.
    pub open spec fn blank() -> ConfigView {
        ConfigView { ignore: Seq::empty(), sparse: Seq::empty(), lock_required: Seq::empty() }
    }
}

impl Config {
    /// The configuration without any pattern.
    pub fn blank() -> (r: Config)
        ensures
            r@ == ConfigView::blank(),
    {
        let r = Config { ignore: Vec::new(), sparse: Vec::new(), lock_required: Vec::new() };
        assert(r@ =~= ConfigView::blank());
        r
    }
}

// ---------------------------------------------------------------------------------------
// HEAD
// ---------------------------------------------------------------------------------------
/// Where HEAD stands: on a branch, or detached at a commit.
#[derive(Clone, Debug, PartialEq, Eq)]
pub struct Head {
    pub reference: Option<String>,
    pub detached: Option<String>,
}

/// What a `Head` says.
pub struct HeadView {
    pub reference: Option<Seq<char>>,
    pub detached: Option<Seq<char>>,
}

impl View for Head {
    type V = HeadView;

    open spec fn view(&self) -> HeadView {
        HeadView { reference: opt_text(self.reference), detached: opt_text(self.detached) }
    }
}

impl Head {
    /// A HEAD that stands nowhere.
    pub fn blank() -> (r: Head)
        ensures
            r@ == (HeadView { reference: None, detached: None }),
    {
        Head { reference: None, detached: None }
    }
}

// ---------------------------------------------------------------------------------------
// Index
// ---------------------------------------------------------------------------------------
/// A staged file: the hash of its contents, and the size and time by which a change shows.
#[derive(Clone, Debug, PartialEq, Eq)]
pub struct IndexEntry {
    pub hash: String,
    pub size: u64,
    pub mtime: u64,
}

/// What an `IndexEntry` says.
pub struct IndexEntryView {
    pub hash: Seq<char>,
    pub size: u64,
    pub mtime: u64,
}

impl View for IndexEntry {
    type V = IndexEntryView;

    open spec fn view(&self) -> IndexEntryView {
        IndexEntryView { hash: self.hash@, size: self.size, mtime: self.mtime }
    }
}

impl IndexEntry {
    /// A copy of the entry.
    pub fn copy(&self) -> (r: IndexEntry)
        ensures
            r@ == self@,
    {
        IndexEntry { hash: self.hash.clone(), size: self.size, mtime: self.mtime }
    }
}

/// What is staged for the next commit: files to put and files to delete.
pub struct Index {
    pub put: StrMap<IndexEntry>,
    pub del: StrSet,
}

/// What an `Index` says.
#[verifier::ext_equal]
pub struct IndexView {
    pub put: Map<Seq<char>, IndexEntryView>,
    pub del: Set<Seq<char>>,
}

impl View for Index {
    type V = IndexView;

    open spec fn view(&self) -> IndexView {
        IndexView { put: self.put@, del: self.del@ }
    }
}

impl IndexView {
    /// Nothing staged.
    pub open spec fn blank() -> IndexView {
        IndexView { put: Map::empty(), del: Set::empty() }
    }
}

impl Index {
    /// Nothing staged.
    pub fn blank() -> (r: Index)
        ensures
            r@ == IndexView::blank(),
    {
        Index { put: StrMap::new(), del: StrSet::new() }
    }
}

/// The files whose size and time were recorded with the hash of their contents.
pub struct StatCache {
    pub files: StrMap<IndexEntry>,
}

impl View for StatCache {
    type V = Map<Seq<char>, IndexEntryView>;

    open spec fn view(&self) -> Map<Seq<char>, IndexEntryView> {
        self.files@
    }
}

// ---------------------------------------------------------------------------------------
// Commits
// ---------------------------------------------------------------------------------------
/// A commit: layers of changes on top of a base snapshot.
#[derive(Clone, Debug, PartialEq, Eq)]
pub struct Commit {
    pub id: String,
    pub parents: Vec<String>,
    pub message: String,
    pub seq: u64,
    pub base_root: String,
    pub layers: Vec<String>,
    pub effective_root: String,
    pub ts: i64,
}

/// What a `Commit` says.
#[verifier::ext_equal]
pub struct CommitView {
    pub id: Seq<char>,
    pub parents: Seq<Seq<char>>,
    pub message: Seq<char>,
    pub seq: u64,
    pub base_root: Seq<char>,
    pub layers: Seq<Seq<char>>,
    pub effective_root: Seq<char>,
    pub ts: i64,
}

impl View for Commit {
    type V = CommitView;

    open spec fn view(&self) -> CommitView {
        CommitView {
            id: self.id@,
            parents: text::texts(self.parents@),
            message: self.message@,
            seq: self.seq,
            base_root: self.base_root@,
            layers: text::texts(self.layers@),
            effective_root: self.effective_root@,
            ts: self.ts,
        }
    }
}

impl Commit {
    /// A copy of the commit.
    pub fn copy(&self) -> (r: Commit)
        ensures
            r@ == self@,
    {
        Commit {
            id: self.id.clone(),
            parents: copy_texts(&self.parents),
            message: self.message.clone(),
            seq: self.seq,
            base_root: self.base_root.clone(),
            layers: copy_texts(&self.layers),
            effective_root: self.effective_root.clone(),
            ts: self.ts,
        }
    }
}

/// The readable commits of a repository, each under the identifier that it is stored under.
pub type Commits = StrMap<Commit>;

// ---------------------------------------------------------------------------------------
// Trees and layers
// ---------------------------------------------------------------------------------------
/// One name in a tree: a file (kind `blob`) or a directory (kind `tree`).
#[derive(Clone, Debug, PartialEq, Eq)]
pub struct TreeEntry {
    pub name: String,
    pub kind: String,
    pub hash: String,
    pub mode: String,
}

/// What a `TreeEntry` says.
pub struct TreeEntryView {
    pub name: Seq<char>,
    pub kind: Seq<char>,
    pub hash: Seq<char>,
    pub mode: Seq<char>,
}

impl View for TreeEntry {
    type V = TreeEntryView;

    open spec fn view(&self) -> TreeEntryView {
        TreeEntryView { name: self.name@, kind: self.kind@, hash: self.hash@, mode: self.mode@ }
    }
}

impl TreeEntry {
    /// A copy of the entry.
    pub fn copy(&self) -> (r: TreeEntry)
        ensures
            r@ == self@,
    {
        TreeEntry {
            name: self.name.clone(),
            kind: self.kind.clone(),
            hash: self.hash.clone(),
            mode: self.mode.clone(),
        }
    }
}

/// A directory listing.
#[derive(Clone, Debug, PartialEq, Eq)]
pub struct Tree {
    pub entries: Vec<TreeEntry>,
}

/// What the entries of a tree say.
pub open spec fn entry_views(v: Seq<TreeEntry>) -> Seq<TreeEntryView> {
    v.map_values(|e: TreeEntry| e@)
}

impl View for Tree {
    type V = Seq<TreeEntryView>;

    open spec fn view(&self) -> Seq<TreeEntryView> {
        entry_views(self.entries@)
    }
}

/// One change of a layer.
#[derive(Clone, Debug, PartialEq, Eq)]
pub enum LayerChange {
    Put { path: String, hash: String },
    Del { path: String },
}

/// What a `LayerChange` says.
pub enum ChangeView {
    Put { path: Seq<char>, hash: Seq<char> },
    Del { path: Seq<char> },
}

impl View for LayerChange {
    type V = ChangeView;

    open spec fn view(&self) -> ChangeView {
        match self {
            LayerChange::Put { path, hash } => ChangeView::Put { path: path@, hash: hash@ },
            LayerChange::Del { path } => ChangeView::Del { path: path@ },
        }
    }
}

/// The changes that one commit makes.
#[derive(Clone, Debug, PartialEq, Eq)]
pub struct Layer {
    pub changes: Vec<LayerChange>,
}

impl View for Layer {
    type V = Seq<ChangeView>;

    open spec fn view(&self) -> Seq<ChangeView> {
        self.changes@.map_values(|c: LayerChange| c@)
    }
}

// ---------------------------------------------------------------------------------------
// Reflog and bundle
// ---------------------------------------------------------------------------------------
/// One move of HEAD.
#[derive(Clone, Debug, PartialEq, Eq)]
pub struct ReflogEntry {
    pub ts: i64,
    pub old: String,
    pub new: String,
    pub action: String,
}

/// What a `ReflogEntry` says.
pub struct ReflogEntryView {
    pub ts: i64,
    pub old: Seq<char>,
    pub new: Seq<char>,
    pub action: Seq<char>,
}

impl View for ReflogEntry {
    type V = ReflogEntryView;

    open spec fn view(&self) -> ReflogEntryView {
        ReflogEntryView { ts: self.ts, old: self.old@, new: self.new@, action: self.action@ }
    }
}

/// What a reflog says.
pub open spec fn reflog_views(v: Seq<ReflogEntry>) -> Seq<ReflogEntryView> {
    v.map_values(|e: ReflogEntry| e@)
}

/// What a list of commits says.
pub open spec fn commit_views(v: Seq<Commit>) -> Seq<CommitView> {
    v.map_values(|c: Commit| c@)
}

/// Everything of a repository but its objects: what a push sends and a pull brings.
pub struct RemoteBundle {
    pub commits: Vec<Commit>,
    pub refs: StrMap<String>,
    pub head: Head,
    pub config: Config,
    pub reflog: Vec<ReflogEntry>,
    pub seq: u64,
}

/// What a `RemoteBundle` says.
#[verifier::ext_equal]
pub struct BundleView {
    pub commits: Seq<CommitView>,
    pub refs: Map<Seq<char>, Seq<char>>,
    pub head: HeadView,
    pub config: ConfigView,
    pub reflog: Seq<ReflogEntryView>,
    pub seq: u64,
}

impl View for RemoteBundle {
    type V = BundleView;

    open spec fn view(&self) -> BundleView {
        BundleView {
            commits: commit_views(self.commits@),
            refs: self.refs@,
            head: self.head@,
            config: self.config@,
            reflog: reflog_views(self.reflog@),
            seq: self.seq,
        }
    }
}

impl BundleView {
    /// The bundle of a repository that holds nothing.
    pub open spec fn blank() -> BundleView {
        BundleView {
            commits: Seq::empty(),
            refs: Map::empty(),
            head: HeadView { reference: None, detached: None },
            config: ConfigView::blank(),
            reflog: Seq::empty(),
            seq: 0,
        }
    }
}

impl RemoteBundle {
    /// The bundle of a repository that holds nothing.
    pub fn blank() -> (r: RemoteBundle)
        ensures
            r@ == BundleView::blank(),
    {
        let r = RemoteBundle {
            commits: Vec::new(),
            refs: StrMap::new(),
            head: Head::blank(),
            config: Config::blank(),
            reflog: Vec::new(),
            seq: 0,
        };
        assert(r@ =~= BundleView::blank());
        r
    }
}

// ---------------------------------------------------------------------------------------
// Laws
// ---------------------------------------------------------------------------------------
/// A file of up to a hundred mebibytes is read as JSON, and no larger one.
pub proof fn law_json_is_read_up_to_a_hundred_mebibytes()
    ensures
        MAX_JSON_SIZE == 100 * 1024 * 1024,
        POP_DIR@ == ".pop"@,
        ROOT_COMMIT@ == "cmt_0000000"@,
{
}

/// Optional texts and lists say what each of their members says.
pub proof fn law_lists_say_each_member(s: String, t: Seq<String>, c: Seq<Commit>, e: Seq<TreeEntry>, r: Seq<ReflogEntry>, i: int)
    ensures
        opt_text(Some(s)) == Some(s@),
        opt_text(None) is None,
        text::texts(t).len() == t.len(),
        0 <= i < t.len() ==> text::texts(t)[i] == t[i]@,
        commit_views(c).len() == c.len(),
        0 <= i < c.len() ==> commit_views(c)[i] == c[i]@,
        entry_views(e).len() == e.len(),
        0 <= i < e.len() ==> entry_views(e)[i] == e[i]@,
        reflog_views(r).len() == r.len(),
        0 <= i < r.len() ==> reflog_views(r)[i] == r[i]@,
{
}

/// A commit, a configuration, HEAD and an entry of the index say what their fields hold.
pub proof fn law_records_say_their_fields(c: Commit, cfg: Config, h: Head, e: IndexEntry, t: TreeEntry, m: ReflogEntry)
    ensures
        c@.id == c.id@ && c@.message == c.message@ && c@.seq == c.seq && c@.ts == c.ts,
        c@.base_root == c.base_root@ && c@.effective_root == c.effective_root@,
        c@.parents == text::texts(c.parents@) && c@.layers == text::texts(c.layers@),
        cfg@.ignore == text::texts(cfg.ignore@) && cfg@.sparse == text::texts(cfg.sparse@) && cfg@.lock_required
            == text::texts(cfg.lock_required@),
        h@.reference == opt_text(h.reference) && h@.detached == opt_text(h.detached),
        e@.hash == e.hash@ && e@.size == e.size && e@.mtime == e.mtime,
        t@.name == t.name@ && t@.kind == t.kind@ && t@.hash == t.hash@ && t@.mode == t.mode@,
        m@.ts == m.ts && m@.old == m.old@ && m@.new == m.new@ && m@.action == m.action@,
{
}

/// An index, a cache, a tree, a layer and a bundle say what they hold.
pub proof fn law_collections_say_what_they_hold(idx: Index, sc: StatCache, t: Tree, l: Layer, b: RemoteBundle, i: int)
    ensures
        idx@.put == idx.put@ && idx@.del == idx.del@,
        sc@ == sc.files@,
        t@.len() == t.entries@.len(),
        0 <= i < t.entries@.len() ==> t@[i] == t.entries@[i]@,
        l@.len() == l.changes@.len(),
        0 <= i < l.changes@.len() ==> match l.changes@[i] {
            LayerChange::Put { path, hash } => l@[i] == (ChangeView::Put { path: path@, hash: hash@ }),
            LayerChange::Del { path } => l@[i] == (ChangeView::Del { path: path@ }),
        },
        b@.refs == b.refs@ && b@.head == b.head@ && b@.config == b.config@ && b@.seq == b.seq,
        b@.commits == commit_views(b.commits@) && b@.reflog == reflog_views(b.reflog@),
{
}

/// What is blank holds nothing.
pub proof fn law_blanks_hold_nothing()
    ensures
        ConfigView::blank().ignore.len() == 0 && ConfigView::blank().sparse.len() == 0
            && ConfigView::blank().lock_required.len() == 0,
        IndexView::blank().put == Map::<Seq<char>, IndexEntryView>::empty(),
        IndexView::blank().del == Set::<Seq<char>>::empty(),
        BundleView::blank().commits.len() == 0 && BundleView::blank().reflog.len() == 0 && BundleView::blank().seq == 0,
        BundleView::blank().refs == Map::<Seq<char>, Seq<char>>::empty(),
        BundleView::blank().head.reference is None && BundleView::blank().head.detached is None,
        BundleView::blank().config == ConfigView::blank(),
{
}

} // verus!

//! Bundles: how the commits, branches and settings of a repository are put together and taken in.

use vstd::prelude::*;
use vstd::string::*;

use crate::commits;
use crate::model;
use crate::model::{Commit, Config, Head, ReflogEntry, RemoteBundle};
use crate::strmap;
use crate::strmap::StrMap;
use crate::text;

verus! {

// ---------------------------------------------------------------------------------------
// Taking in
// ---------------------------------------------------------------------------------------
/// What a file of a bundle holds.
pub enum Content {
    /// The commit at this position of the bundle.
    Commit(usize),
    /// This text.
    Text(String),
    /// HEAD.
    Head,
    /// The configuration.
    Config,
    /// The reflog.
    Reflog,
}

/// What a `Content` says.
pub enum ContentView {
    Commit { at: int },
    Text { text: Seq<char> },
    Head,
    Config,
    Reflog,
}

/// A file that taking a bundle in writes, at its path in the directory of the repository.
pub struct FileWrite {
    pub path: String,
    pub content: Content,
}

/// What a `FileWrite` says.
pub struct WriteView {
    pub path: Seq<char>,
    pub content: ContentView,
}

impl View for FileWrite {
    type V = WriteView;

    open spec fn view(&self) -> WriteView {
        WriteView {
            path: self.path@,
            content: match self.content {
                Content::Commit(at) => ContentView::Commit { at: at as int },
                Content::Text(s) => ContentView::Text { text: s@ },
                Content::Head => ContentView::Head,
                Content::Config => ContentView::Config,
                Content::Reflog => ContentView::Reflog,
            },
        }
    }
}

/// What a list of files says.
pub open spec fn write_views(v: Seq<FileWrite>) -> Seq<WriteView> {
    v.map_values(|w: FileWrite| w@)
}

/// The file of a commit.
pub open spec fn commit_file(id: Seq<char>) -> Seq<char> {
    "commits/"@ + id + ".json"@
}

/// The file of the commit `id`, in the directory of the repository.
pub fn commit_file_name(id: &str) -> (r: String)
    ensures
        r@ == commit_file(id@),
{
    let mut s = text::concat("commits/", id);
    s.append(".json");
    s
}

/// The files of the first `n` commits of a bundle.
pub open spec fn commit_writes(b: model::BundleView, n: nat) -> Seq<WriteView> {
    Seq::new(n, |i: int| WriteView { path: commit_file(b.commits[i].id), content: ContentView::Commit { at: i } })
}

/// The file of the branch `r`.
pub open spec fn ref_write(refs: Map<Seq<char>, Seq<char>>, r: Seq<char>) -> WriteView {
    WriteView { path: r, content: ContentView::Text { text: refs[r] + "\n"@ } }
}

/// The files of the branches of a bundle, in ascending order of their names.
pub open spec fn ref_writes(refs: Map<Seq<char>, Seq<char>>) -> Seq<WriteView> {
    strmap::ascending(refs.dom()).map_values(|r: Seq<char>| ref_write(refs, r))
}

/// The files that taking a bundle in writes, in their order: the commits, the branches, and
/// what there is one of.
pub open spec fn bundle_writes(b: model::BundleView) -> Seq<WriteView> {
    commit_writes(b, b.commits.len()) + ref_writes(b.refs) + seq![
        WriteView { path: "HEAD.json"@, content: ContentView::Head },
        WriteView { path: "config.json"@, content: ContentView::Config },
        WriteView { path: "reflog.json"@, content: ContentView::Reflog },
        WriteView {
            path: "SEQ"@,
            content: ContentView::Text { text: text::decimal(b.seq as nat) + "\n"@ },
        },
    ]
}

fn put_write(out: &mut Vec<FileWrite>, path: String, content: Content)
    ensures
        write_views(final(out)@) == write_views(old(out)@).push((FileWrite { path, content })@),
{
    let ghost before = write_views(out@);
    let w = FileWrite { path, content };
    let ghost wv = w@;
    out.push(w);
    assert(write_views(out@) =~= before.push(wv));
}

/// The files that taking a bundle in writes.
pub fn apply_bundle_local(b: &RemoteBundle) -> (r: Vec<FileWrite>)
    ensures
        write_views(r@) == bundle_writes(b@),
{
    let ghost bv = b@;
    let mut out: Vec<FileWrite> = Vec::new();
    let mut i: usize = 0;
    assert(write_views(out@) =~= commit_writes(bv, 0));
    while i < b.commits.len()
        invariant
            i <= b.commits@.len(),
            bv == b@,
            write_views(out@) == commit_writes(bv, i as nat),
        decreases b.commits@.len() - i,
    {
        put_write(&mut out, commit_file_name(b.commits[i].id.as_str()), Content::Commit(i));
        proof {
            assert(bv.commits[i as int] == b.commits@[i as int]@);
            assert(commit_writes(bv, (i + 1) as nat) =~= commit_writes(bv, i as nat).push(
                WriteView { path: commit_file(bv.commits[i as int].id), content: ContentView::Commit { at: i as int } },
            ));
        }
        i = i + 1;
    }
    let ghost first = write_views(out@);
    let n = b.refs.len();
    let ghost ks = b.refs.keys();
    let ghost shape = |r: Seq<char>| ref_write(bv.refs, r);
    let mut j: usize = 0;
    assert(first + ks.take(0).map_values(shape) =~= first);
    while j < n
        invariant
            j <= n == ks.len(),
            bv == b@,
            ks == b.refs.keys(),
            shape == (|r: Seq<char>| ref_write(bv.refs, r)),
            write_views(out@) == first + ks.take(j as int).map_values(shape),
        decreases n - j,
    {
        put_write(
            &mut out,
            b.refs.key(j).clone(),
            Content::Text(text::concat(b.refs.value(j).as_str(), "\n")),
        );
        proof {
            let w = ref_write(bv.refs, ks[j as int]);
            assert(ks.take(j + 1).map_values(shape) =~= ks.take(j as int).map_values(shape).push(w));
            assert((first + ks.take(j as int).map_values(shape)).push(w) =~= first + ks.take(j + 1).map_values(
                shape,
            ));
        }
        j = j + 1;
    }
    assert(ks.take(j as int) =~= ks);
    put_write(&mut out, String::from_str("HEAD.json"), Content::Head);
    put_write(&mut out, String::from_str("config.json"), Content::Config);
    put_write(&mut out, String::from_str("reflog.json"), Content::Reflog);
    put_write(
        &mut out,
        String::from_str("SEQ"),
        Content::Text(text::concat(text::decimal_text(b.seq).as_str(), "\n")),
    );
    assert(write_views(out@) =~= bundle_writes(bv));
    out
}

// ---------------------------------------------------------------------------------------
// Putting together
// ---------------------------------------------------------------------------------------
/// The branches of a bundle, from the names and contents of the branch files, one after the
/// other.
pub open spec fn bundle_refs(names: Seq<Seq<char>>, contents: Seq<Seq<char>>) -> Map<Seq<char>, Seq<char>>
    decreases names.len(),
{
    if names.len() == 0 || names.len() != contents.len() {
        Map::empty()
    } else {
        bundle_refs(names.drop_last(), contents.drop_last()).insert(
            "refs/heads/"@ + names.last(),
            text::first_line(contents.last()),
        )
    }
}

/// The number that the sequence file says, or 0 where it says none.
pub open spec fn number_in(file: Option<Seq<char>>) -> u64 {
    match file {
        Some(s) => match text::u64_value(text::trimmed(s)) {
            Some(n) => n,
            None => 0,
        },
        None => 0,
    }
}

/// The sequence number in a bundle.
pub fn bundle_seq(file: &Option<String>) -> (r: u64)
    ensures
        r == number_in(model::opt_text(*file)),
{
    match file {
        Some(s) => match text::parse_u64(text::trim(s.as_str()).as_str()) {
            Some(n) => n,
            None => 0,
        },
        None => 0,
    }
}

/// A bundle of what was read of a repository. What could not be read is left blank.
pub fn make_bundle_from_repo(
    config: Option<Config>,
    head: Option<Head>,
    reflog: Option<Vec<ReflogEntry>>,
    seq_file: &Option<String>,
    names: &Vec<String>,
    contents: &Vec<String>,
    commits: Vec<Commit>,
) -> (r: RemoteBundle)
    requires
        names@.len() == contents@.len(),
    ensures
        r@ == (model::BundleView {
            commits: model::commit_views(commits@),
            refs: bundle_refs(text::texts(names@), text::texts(contents@)),
            head: match head {
                Some(h) => h@,
                None => model::HeadView { reference: None, detached: None },
            },
            config: match config {
                Some(c) => c@,
                None => model::ConfigView::blank(),
            },
            reflog: match reflog {
                Some(v) => model::reflog_views(v@),
                None => Seq::empty(),
            },
            seq: number_in(model::opt_text(*seq_file)),
        }),
{
    let ghost ns = text::texts(names@);
    let ghost cs = text::texts(contents@);
    let mut refs: StrMap<String> = StrMap::new();
    let mut i: usize = 0;
    assert(ns.take(0) =~= Seq::empty());
    while i < names.len()
        invariant
            i <= names@.len() == contents@.len(),
            ns == text::texts(names@),
            cs == text::texts(contents@),
            refs@ == bundle_refs(ns.take(i as int), cs.take(i as int)),
        decreases names@.len() - i,
    {
        proof {
            assert(ns.take(i + 1).drop_last() =~= ns.take(i as int));
            assert(cs.take(i + 1).drop_last() =~= cs.take(i as int));
        }
        refs.insert(
            text::concat("refs/heads/", names[i].as_str()),
            text::read_first_line(contents[i].as_str()),
        );
        i = i + 1;
    }
    proof {
        assert(ns.take(i as int) =~= ns);
        assert(cs.take(i as int) =~= cs);
    }
    let kept: Vec<ReflogEntry> = match reflog {
        Some(v) => v,
        None => {
            let none: Vec<ReflogEntry> = Vec::new();
            assert(model::reflog_views(none@) =~= Seq::empty());
            none
        },
    };
    RemoteBundle {
        commits,
        refs,
        head: match head {
            Some(h) => h,
            None => Head::blank(),
        },
        config: match config {
            Some(c) => c,
            None => Config::blank(),
        },
        reflog: kept,
        seq: bundle_seq(seq_file),
    }
}

// ---------------------------------------------------------------------------------------
// Laws
// ---------------------------------------------------------------------------------------
/// The sequence number that a bundle brings is the one that is read from the repository after.
pub proof fn law_bundle_brings_the_number(b: model::BundleView)
    ensures
        bundle_writes(b).last().path == "SEQ"@,
        bundle_writes(b).last().content is Text,
        text::u64_value(text::trimmed(bundle_writes(b).last().content->text)) == Some(b.seq),
{
    text::law_decimal_round_trip(b.seq);
    text::lemma_decimal_plain(b.seq as nat);
    text::lemma_trim_line(text::decimal(b.seq as nat));
}

/// The branches that a bundle brings are those that are read from the repository after.
pub proof fn law_bundle_brings_the_branches(refs: Map<Seq<char>, Seq<char>>, r: Seq<char>)
    requires
        refs.dom().finite(),
        refs.contains_key(r),
        text::trimmed(refs[r]) == refs[r],
        !refs[r].contains('\n'),
    ensures
        ref_writes(refs).contains(ref_write(refs, r)),
        text::first_line(ref_write(refs, r).content->text) == refs[r],
{
    let ks = strmap::lemma_listed(refs.dom());
    assert(refs.dom().contains(r));
    assert(ks.contains(r));
    let i = choose|i: int| 0 <= i < ks.len() && ks[i] == r;
    assert(ref_writes(refs)[i] == ref_write(refs, r));
    commits::law_ref_round_trip(refs[r]);
}

/// The branches of a bundle come back: reading the branch files that it writes, in whatever order
/// they are listed, gives its branches. This needs that each is a branch, and that the
/// identifiers are plain.
pub proof fn law_branches_round_trip(refs: Map<Seq<char>, Seq<char>>, names: Seq<Seq<char>>, contents: Seq<Seq<char>>)
    requires
        names.len() == contents.len(),
        forall|i: int| 0 <= i < names.len() ==> refs.contains_key("refs/heads/"@ + #[trigger] names[i]),
        forall|r: Seq<char>|
            #[trigger] refs.contains_key(r) ==> exists|i: int|
                0 <= i < names.len() && "refs/heads/"@ + #[trigger] names[i] == r,
        forall|i: int|
            0 <= i < names.len() ==> contents[i] == commits::ref_line(refs["refs/heads/"@ + #[trigger] names[i]]),
        forall|r: Seq<char>|
            #[trigger] refs.contains_key(r) ==> text::trimmed(refs[r]) == refs[r] && !refs[r].contains('\n'),
    ensures
        bundle_refs(names, contents) == refs,
{
    let n = names.len() as int;
    lemma_refs_read(refs, names, contents, n);
    assert(names.take(n) =~= names);
    assert(contents.take(n) =~= contents);
    let m = bundle_refs(names, contents);
    assert(m.dom() =~= refs.dom());
    assert(m =~= refs);
}

proof fn lemma_refs_read(refs: Map<Seq<char>, Seq<char>>, names: Seq<Seq<char>>, contents: Seq<Seq<char>>, n: int)
    requires
        0 <= n <= names.len(),
        names.len() == contents.len(),
        forall|i: int| 0 <= i < names.len() ==> refs.contains_key("refs/heads/"@ + #[trigger] names[i]),
        forall|i: int|
            0 <= i < names.len() ==> contents[i] == commits::ref_line(refs["refs/heads/"@ + #[trigger] names[i]]),
        forall|r: Seq<char>|
            #[trigger] refs.contains_key(r) ==> text::trimmed(refs[r]) == refs[r] && !refs[r].contains('\n'),
    ensures
        forall|r: Seq<char>|
            #[trigger] bundle_refs(names.take(n), contents.take(n)).contains_key(r) ==> refs.contains_key(r)
                && bundle_refs(names.take(n), contents.take(n))[r] == refs[r],
        forall|i: int|
            0 <= i < n ==> bundle_refs(names.take(n), contents.take(n)).contains_key(
                "refs/heads/"@ + #[trigger] names[i],
            ),
    decreases n,
{
    if n > 0 {
        lemma_refs_read(refs, names, contents, n - 1);
        assert(names.take(n).drop_last() =~= names.take(n - 1));
        assert(contents.take(n).drop_last() =~= contents.take(n - 1));
        let r = "refs/heads/"@ + names[n - 1];
        assert(refs.contains_key(r));
        assert(contents[n - 1] == commits::ref_line(refs["refs/heads/"@ + names[n - 1]]));
        commits::law_ref_round_trip(refs[r]);
        let before = bundle_refs(names.take(n - 1), contents.take(n - 1));
        assert(names.take(n).last() == names[n - 1]);
        assert(contents.take(n).last() == contents[n - 1]);
        assert(bundle_refs(names.take(n), contents.take(n)) == before.insert(r, refs[r]));
    }
}

/// Taking a bundle in writes every commit of it to the file of its identifier, every branch to its
/// own file, and HEAD, the configuration, the reflog and the number, and nothing else.
pub proof fn law_bundle_brings_everything(b: model::BundleView, i: int, r: Seq<char>)
    requires
        b.refs.dom().finite(),
        0 <= i < b.commits.len(),
    ensures
        bundle_writes(b)[i].path == "commits/"@ + b.commits[i].id + ".json"@,
        bundle_writes(b)[i].content == (ContentView::Commit { at: i }),
        b.refs.contains_key(r) ==> bundle_writes(b).contains(
            WriteView { path: r, content: ContentView::Text { text: b.refs[r] + "\n"@ } },
        ),
        bundle_writes(b).contains(WriteView { path: "HEAD.json"@, content: ContentView::Head }),
        bundle_writes(b).contains(WriteView { path: "config.json"@, content: ContentView::Config }),
        bundle_writes(b).contains(WriteView { path: "reflog.json"@, content: ContentView::Reflog }),
        bundle_writes(b).contains(
            WriteView { path: "SEQ"@, content: ContentView::Text { text: text::decimal(b.seq as nat) + "\n"@ } },
        ),
        bundle_writes(b).len() == b.commits.len() + b.refs.dom().len() + 4,
{
    let all = bundle_writes(b);
    let ks = strmap::lemma_listed(b.refs.dom());
    strmap::law_ascending_lists_each_member(b.refs.dom(), r);
    let n = b.commits.len() as int;
    let m = n + ks.len();
    if b.refs.contains_key(r) {
        assert(b.refs.dom().contains(r));
        let k = choose|k: int| 0 <= k < ks.len() && ks[k] == r;
        assert(all[n + k] == ref_write(b.refs, r));
    }
    assert(all[m] == (WriteView { path: "HEAD.json"@, content: ContentView::Head }));
    assert(all[m + 1] == (WriteView { path: "config.json"@, content: ContentView::Config }));
    assert(all[m + 2] == (WriteView { path: "reflog.json"@, content: ContentView::Reflog }));
    assert(all[m + 3] == (WriteView {
        path: "SEQ"@,
        content: ContentView::Text { text: text::decimal(b.seq as nat) + "\n"@ },
    }));
}

/// A bundle without commits is taken in as well: HEAD, the configuration, the reflog and the
/// number come last, in this order.
pub proof fn law_bundle_ends_with_what_there_is_one_of(b: model::BundleView)
    ensures
        ({
            let all = bundle_writes(b);
            let n = all.len() as int;
            &&& n >= 4
            &&& all[n - 4].content is Head && all[n - 4].path == "HEAD.json"@
            &&& all[n - 3].content is Config && all[n - 3].path == "config.json"@
            &&& all[n - 2].content is Reflog && all[n - 2].path == "reflog.json"@
            &&& all[n - 1].content is Text && all[n - 1].path == "SEQ"@
        }),
{
}

/// The number of a bundle is the one in the sequence file, whatever white space stands around it,
/// and 0 where there is no file or no number in it.
pub proof fn law_bundle_number_is_that_of_the_file(n: u64)
    ensures
        number_in(None) == 0,
        number_in(Some(text::decimal(n as nat) + "\n"@)) == n,
        number_in(Some(Seq::empty())) == 0,
{
    text::law_decimal_round_trip(n);
    text::lemma_decimal_plain(n as nat);
    text::lemma_trim_line(text::decimal(n as nat));
    let e = Seq::<char>::empty();
    assert(text::trimmed(e) == e);
}

/// The files that a bundle writes say their path and what they hold.
pub proof fn law_writes_say_path_and_content(v: Seq<FileWrite>, w: FileWrite, i: int)
    ensures
        write_views(v).len() == v.len(),
        0 <= i < v.len() ==> write_views(v)[i] == v[i]@,
        w@.path == w.path@,
        match w.content {
            Content::Commit(at) => w@.content == (ContentView::Commit { at: at as int }),
            Content::Text(s) => w@.content == (ContentView::Text { text: s@ }),
            Content::Head => w@.content is Head,
            Content::Config => w@.content is Config,
            Content::Reflog => w@.content is Reflog,
        },
{
}

/// A bundle has exactly the branches whose files were read, each with the first line of its file.
pub proof fn law_bundle_reads_each_branch(names: Seq<Seq<char>>, contents: Seq<Seq<char>>, r: Seq<char>)
    requires
        names.len() == contents.len(),
        names.no_duplicates(),
    ensures
        forall|i: int|
            0 <= i < names.len() ==> bundle_refs(names, contents).contains_pair(
                "refs/heads/"@ + #[trigger] names[i],
                text::first_line(contents[i]),
            ),
        bundle_refs(names, contents).contains_key(r) ==> exists|i: int|
            0 <= i < names.len() && r == "refs/heads/"@ + #[trigger] names[i],
    decreases names.len(),
{
    if names.len() > 0 {
        let front = names.drop_last();
        let fc = contents.drop_last();
        law_bundle_reads_each_branch(front, fc, r);
        let pre = "refs/heads/"@;
        let last = names.last();
        assert forall|i: int| 0 <= i < names.len() implies bundle_refs(names, contents).contains_pair(
            pre + #[trigger] names[i],
            text::first_line(contents[i]),
        ) by {
            if i < front.len() {
                assert(front[i] == names[i] && fc[i] == contents[i]);
                assert(names[i] != names[names.len() - 1]);
                assert((pre + names[i]).skip(pre.len() as int) =~= names[i]);
                assert((pre + last).skip(pre.len() as int) =~= last);
            }
        }
        if bundle_refs(names, contents).contains_key(r) {
            if r == pre + last {
                assert(r == pre + names[names.len() - 1]);
            } else {
                let i = choose|i: int| 0 <= i < front.len() && r == pre + #[trigger] front[i];
                assert(r == pre + names[i]);
            }
        }
    }
}

/// For any sequence file: the number that stands in it without the white space around it, and 0
/// where that is no number.
pub proof fn law_number_of_any_file(s: Seq<char>)
    ensures
        text::u64_value(text::trimmed(s)) is Some ==> number_in(Some(s)) == text::u64_value(text::trimmed(s))->0,
        text::u64_value(text::trimmed(s)) is None ==> number_in(Some(s)) == 0,
{
}

} // verus!

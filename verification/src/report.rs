//! What the commands print.

use vstd::prelude::*;
use vstd::string::*;

use crate::changes::Diff;
use crate::model;
use crate::model::{Commit, Config, Head, ReflogEntry};
use crate::text;

verus! {

/// How many moves of HEAD are shown at most.
pub const REFLOG_SHOWN: usize = 500;

fn put_line(out: &mut Vec<String>, s: String)
    ensures
        text::texts(final(out)@) == text::texts(old(out)@).push(s@),
{
    let ghost before = text::texts(out@);
    let ghost sv = s@;
    out.push(s);
    assert(text::texts(out@) =~= before.push(sv));
}

/// Each of `lines` with `mark` before it.
pub open spec fn marked(mark: Seq<char>, lines: Seq<Seq<char>>) -> Seq<Seq<char>> {
    lines.map_values(|s: Seq<char>| mark + s)
}

fn put_marked(out: &mut Vec<String>, mark: &str, lines: &Vec<String>)
    ensures
        text::texts(final(out)@) == text::texts(old(out)@) + marked(mark@, text::texts(lines@)),
{
    let ghost start = text::texts(out@);
    let ghost all = text::texts(lines@);
    let mut i: usize = 0;
    assert(start + marked(mark@, all.take(0)) =~= start);
    while i < lines.len()
        invariant
            i <= lines@.len(),
            all == text::texts(lines@),
            text::texts(out@) == start + marked(mark@, all.take(i as int)),
        decreases lines@.len() - i,
    {
        put_line(out, text::concat(mark, lines[i].as_str()));
        proof {
            let row = mark@ + all[i as int];
            assert(marked(mark@, all.take(i + 1)) =~= marked(mark@, all.take(i as int)).push(row));
            assert((start + marked(mark@, all.take(i as int))).push(row) =~= start + marked(
                mark@,
                all.take(i + 1),
            ));
        }
        i = i + 1;
    }
    assert(all.take(i as int) =~= all);
}

// ---------------------------------------------------------------------------------------
// Differences
// ---------------------------------------------------------------------------------------
/// The lines that tell of a difference, under a title.
pub open spec fn diff_lines(
    title: Seq<char>,
    added: Seq<Seq<char>>,
    modified: Seq<Seq<char>>,
    deleted: Seq<Seq<char>>,
) -> Seq<Seq<char>> {
    if added.len() == 0 && modified.len() == 0 && deleted.len() == 0 {
        seq![title, "  (none)"@]
    } else {
        seq![title] + marked("  + "@, added) + marked("  ~ "@, modified) + marked("  - "@, deleted)
    }
}

/// The lines that tell of a difference, under a title.
pub fn print_diff(title: &str, d: &Diff) -> (r: Vec<String>)
    ensures
        text::texts(r@) == diff_lines(
            title@,
            text::texts(d.added@),
            text::texts(d.modified@),
            text::texts(d.deleted@),
        ),
{
    let mut out: Vec<String> = Vec::new();
    assert(text::texts(out@) =~= Seq::empty());
    put_line(&mut out, String::from_str(title));
    assert(text::texts(out@) =~= seq![title@]);
    if d.added.len() == 0 && d.modified.len() == 0 && d.deleted.len() == 0 {
        put_line(&mut out, String::from_str("  (none)"));
        assert(text::texts(out@) =~= seq![title@, "  (none)"@]);
        return out;
    }
    put_marked(&mut out, "  + ", &d.added);
    put_marked(&mut out, "  ~ ", &d.modified);
    put_marked(&mut out, "  - ", &d.deleted);
    out
}

// ---------------------------------------------------------------------------------------
// Status
// ---------------------------------------------------------------------------------------
/// Where HEAD stands, in words.
pub open spec fn head_label(h: model::HeadView) -> Seq<char> {
    match h.detached {
        Some(id) => "detached@"@ + id,
        None => match h.reference {
            Some(reference) => reference,
            None => "HEAD"@,
        },
    }
}

/// The first two lines of a status: where HEAD stands, and the sparse patterns.
pub open spec fn status_lines(h: model::HeadView, cfg: model::ConfigView) -> Seq<Seq<char>> {
    seq![
        "On: "@ + head_label(h),
        if cfg.sparse.len() == 0 {
            "Sparse: (none)"@
        } else {
            "Sparse: "@ + text::joined(cfg.sparse, ", "@)
        },
    ]
}

/// The first two lines of a status.
pub fn status_head(h: &Head, cfg: &Config) -> (r: Vec<String>)
    ensures
        text::texts(r@) == status_lines(h@, cfg@),
{
    let label = match &h.detached {
        Some(id) => text::concat("detached@", id.as_str()),
        None => match &h.reference {
            Some(reference) => reference.clone(),
            None => String::from_str("HEAD"),
        },
    };
    let mut out: Vec<String> = Vec::new();
    assert(text::texts(out@) =~= Seq::empty());
    put_line(&mut out, text::concat("On: ", label.as_str()));
    if cfg.sparse.len() == 0 {
        put_line(&mut out, String::from_str("Sparse: (none)"));
    } else {
        put_line(&mut out, text::concat("Sparse: ", text::join(&cfg.sparse, ", ").as_str()));
    }
    assert(text::texts(out@) =~= status_lines(h@, cfg@));
    out
}

// ---------------------------------------------------------------------------------------
// Log
// ---------------------------------------------------------------------------------------
/// The lines that tell of a commit.
pub open spec fn commit_lines(c: model::CommitView) -> Seq<Seq<char>> {
    seq![
        c.id + "  #"@ + text::decimal(c.seq as nat),
        "  "@ + c.message,
        "  ts "@ + text::signed_decimal(c.ts as int),
        "  layers "@ + text::decimal(c.layers.len()) + "  base "@ + c.base_root,
    ]
}

/// The lines that tell of a commit.
pub fn log_entry(c: &Commit) -> (r: Vec<String>)
    ensures
        text::texts(r@) == commit_lines(c@),
{
    let mut out: Vec<String> = Vec::new();
    assert(text::texts(out@) =~= Seq::empty());
    let mut first = text::concat(c.id.as_str(), "  #");
    first.append(text::decimal_text(c.seq).as_str());
    put_line(&mut out, first);
    put_line(&mut out, text::concat("  ", c.message.as_str()));
    put_line(&mut out, text::concat("  ts ", text::signed_text(c.ts).as_str()));
    let mut last = text::concat("  layers ", text::decimal_text(c.layers.len() as u64).as_str());
    last.append("  base ");
    last.append(c.base_root.as_str());
    put_line(&mut out, last);
    assert(text::texts(out@) =~= commit_lines(c@));
    out
}

// ---------------------------------------------------------------------------------------
// Reflog
// ---------------------------------------------------------------------------------------
/// The line that tells of a move of HEAD.
pub open spec fn move_line(e: model::ReflogEntryView) -> Seq<char> {
    "ts "@ + text::signed_decimal(e.ts as int) + "  "@ + e.old + " -> "@ + e.new + "  "@ + e.action
}

/// The lines that tell of the moves of HEAD, the latest first.
pub open spec fn reflog_lines(log: Seq<model::ReflogEntryView>) -> Seq<Seq<char>> {
    if log.len() == 0 {
        seq!["(empty)"@]
    } else {
        let n = if log.len() < REFLOG_SHOWN {
            log.len()
        } else {
            REFLOG_SHOWN as nat
        };
        Seq::new(n, |i: int| move_line(log[log.len() - 1 - i]))
    }
}

fn move_text(e: &ReflogEntry) -> (r: String)
    ensures
        r@ == move_line(e@),
{
    let mut s = text::concat("ts ", text::signed_text(e.ts).as_str());
    s.append("  ");
    s.append(e.old.as_str());
    s.append(" -> ");
    s.append(e.new.as_str());
    s.append("  ");
    s.append(e.action.as_str());
    s
}

/// The lines that tell of the moves of HEAD, the latest first.
pub fn reflog_cmd(log: &Vec<ReflogEntry>) -> (r: Vec<String>)
    ensures
        text::texts(r@) == reflog_lines(model::reflog_views(log@)),
{
    let mut out: Vec<String> = Vec::new();
    assert(text::texts(out@) =~= Seq::empty());
    let n = log.len();
    if n == 0 {
        put_line(&mut out, String::from_str("(empty)"));
        assert(text::texts(out@) =~= seq!["(empty)"@]);
        return out;
    }
    let ghost goal = reflog_lines(model::reflog_views(log@));
    let shown: usize = if n < REFLOG_SHOWN {
        n
    } else {
        REFLOG_SHOWN
    };
    let mut i: usize = 0;
    assert(goal.take(0) =~= Seq::empty());
    while i < shown
        invariant
            i <= shown <= n == log@.len(),
            n > 0,
            goal == reflog_lines(model::reflog_views(log@)),
            goal.len() == shown,
            text::texts(out@) == goal.take(i as int),
        decreases shown - i,
    {
        put_line(&mut out, move_text(&log[n - 1 - i]));
        proof {
            assert(goal[i as int] == move_line(model::reflog_views(log@)[n - 1 - i]));
            assert(goal.take(i + 1) =~= goal.take(i as int).push(goal[i as int]));
        }
        i = i + 1;
    }
    assert(goal.take(i as int) =~= goal);
    out
}

// ---------------------------------------------------------------------------------------
// Laws
// ---------------------------------------------------------------------------------------
/// The latest move of HEAD is told first.
pub proof fn law_latest_move_first(log: Seq<model::ReflogEntryView>, e: model::ReflogEntryView)
    ensures
        reflog_lines(log.push(e))[0] == move_line(e),
        reflog_lines(log.push(e)).len() <= REFLOG_SHOWN,
{
}

/// A difference is told under its title with one line for each path and the mark of what became
/// of it, the added paths first and the deleted ones last; where there is none, one line says so.
pub proof fn law_difference_is_told_path_by_path(
    title: Seq<char>,
    added: Seq<Seq<char>>,
    modified: Seq<Seq<char>>,
    deleted: Seq<Seq<char>>,
    i: int,
)
    ensures
        ({
            let r = diff_lines(title, added, modified, deleted);
            let n = added.len() + modified.len() + deleted.len();
            &&& r[0] == title
            &&& n == 0 ==> r.len() == 2 && r[1] == "  (none)"@
            &&& n > 0 ==> r.len() == 1 + n
            &&& 0 <= i < added.len() ==> r[1 + i] == "  + "@ + added[i]
            &&& 0 <= i < modified.len() ==> r[1 + added.len() + i] == "  ~ "@ + modified[i]
            &&& 0 <= i < deleted.len() ==> r[1 + added.len() + modified.len() + i] == "  - "@ + deleted[i]
        }),
{
}

/// A status tells first where HEAD stands: the commit where it is detached, else its branch; and
/// then the sparse patterns.
pub proof fn law_status_tells_head_and_patterns(id: Seq<char>, r: Seq<char>, o: Option<Seq<char>>, cfg: model::ConfigView)
    ensures
        status_lines((model::HeadView { reference: o, detached: Some(id) }), cfg)[0] == "On: "@ + ("detached@"@ + id),
        status_lines((model::HeadView { reference: Some(r), detached: None }), cfg)[0] == "On: "@ + r,
        status_lines((model::HeadView { reference: None, detached: None }), cfg)[0] == "On: "@ + "HEAD"@,
        status_lines((model::HeadView { reference: o, detached: o }), cfg).len() == 2,
        cfg.sparse.len() == 0 ==> status_lines((model::HeadView { reference: o, detached: o }), cfg)[1]
            == "Sparse: (none)"@,
        cfg.sparse.len() > 0 ==> status_lines((model::HeadView { reference: o, detached: o }), cfg)[1] == "Sparse: "@
            + text::joined(cfg.sparse, ", "@),
{
}

/// A log tells of a commit its identifier and number, its message to the letter, its time, and its
/// layers and base.
pub proof fn law_log_tells_the_commit(c: model::CommitView)
    ensures
        commit_lines(c).len() == 4,
        commit_lines(c)[0] == c.id + "  #"@ + text::decimal(c.seq as nat),
        commit_lines(c)[1].len() == 2 + c.message.len(),
        commit_lines(c)[1].skip(2) == c.message,
        commit_lines(c)[2] == "  ts "@ + text::signed_decimal(c.ts as int),
        commit_lines(c)[3] == "  layers "@ + text::decimal(c.layers.len()) + "  base "@ + c.base_root,
{
    reveal_strlit("  ");
    assert(commit_lines(c)[1].skip(2) =~= c.message);
}

/// The moves of HEAD are told from the latest back, up to five hundred of them, each with its
/// time, where HEAD was, where it went and why; where there is none, one line says so.
pub proof fn law_moves_are_told_from_the_latest(log: Seq<model::ReflogEntryView>, i: int)
    ensures
        log.len() == 0 ==> reflog_lines(log).len() == 1 && reflog_lines(log)[0] == "(empty)"@,
        0 < log.len() <= 500 ==> reflog_lines(log).len() == log.len(),
        log.len() > 500 ==> reflog_lines(log).len() == 500,
        0 <= i < log.len() && i < 500 ==> {
            let e = log.reverse()[i];
            reflog_lines(log)[i] == "ts "@ + text::signed_decimal(e.ts as int) + "  "@ + e.old + " -> "@ + e.new + "  "@
                + e.action
        },
{
}

} // verus!

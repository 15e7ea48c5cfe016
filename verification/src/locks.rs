//! Locks on files that cannot be merged.

use vstd::prelude::*;
use vstd::string::*;

use crate::auth::ct_eq_text;
use crate::encoding;
use crate::encoding::encode_url;
use crate::ignore;
use crate::ignore::requires_lock;
use crate::model;
use crate::model::{Config, Index};
use crate::strmap;
use crate::strmap::{StrMap, StrSet};
use crate::text;

verus! {

/// A lock on a path, from `ts` on for `ttl` seconds.
#[derive(Clone, Debug, PartialEq, Eq)]
pub struct LockEntry {
    pub path: String,
    pub owner: String,
    pub token: String,
    pub ts: i64,
    pub ttl: u64,
}

/// What a `LockEntry` says.
pub struct LockView {
    pub path: Seq<char>,
    pub owner: Seq<char>,
    pub token: Seq<char>,
    pub ts: i64,
    pub ttl: u64,
}

impl View for LockEntry {
    type V = LockView;

    open spec fn view(&self) -> LockView {
        LockView {
            path: self.path@,
            owner: self.owner@,
            token: self.token@,
            ts: self.ts,
            ttl: self.ttl,
        }
    }
}

impl LockEntry {
    /// A copy of the lock.
    pub fn copy(&self) -> (r: LockEntry)
        ensures
            r@ == self@,
    {
        LockEntry {
            path: self.path.clone(),
            owner: self.owner.clone(),
            token: self.token.clone(),
            ts: self.ts,
            ttl: self.ttl,
        }
    }
}

/// The locks of a repository, each under its path.
pub type LockDb = StrMap<LockEntry>;

/// What a `LockDb` says.
pub type LocksView = Map<Seq<char>, LockView>;

/// What a list of locks says.
pub open spec fn lock_views(v: Seq<LockEntry>) -> Seq<LockView> {
    v.map_values(|e: LockEntry| e@)
}

/// The locks in ascending order of their paths.
pub open spec fn in_order(db: LocksView) -> Seq<LockView> {
    strmap::ascending(db.dom()).map_values(|p: Seq<char>| db[p])
}

/// The locks in ascending order of their paths.
pub fn lock_list(db: &LockDb) -> (r: Vec<LockEntry>)
    ensures
        lock_views(r@) == in_order(db@),
{
    let n = db.len();
    let ghost ks = db.keys();
    let ghost shape = |p: Seq<char>| db@[p];
    let mut out: Vec<LockEntry> = Vec::new();
    let mut i: usize = 0;
    assert(lock_views(out@) =~= ks.take(0).map_values(shape));
    while i < n
        invariant
            i <= n == ks.len(),
            ks == db.keys(),
            shape == (|p: Seq<char>| db@[p]),
            lock_views(out@) == ks.take(i as int).map_values(shape),
        decreases n - i,
    {
        let ghost before = lock_views(out@);
        let e = db.value(i).copy();
        let ghost ev = e@;
        out.push(e);
        proof {
            assert(lock_views(out@) =~= before.push(ev));
            assert(ks.take(i + 1).map_values(shape) =~= ks.take(i as int).map_values(shape).push(ev));
        }
        i = i + 1;
    }
    assert(ks.take(i as int) =~= ks);
    out
}

// ---------------------------------------------------------------------------------------
// Expiry
// ---------------------------------------------------------------------------------------
/// The last second of a lock. The sum wraps around at the limits of its type.
pub open spec fn deadline(e: LockView) -> i64 {
    e.ts.wrapping_add(e.ttl as i64)
}

fn last_second(e: &LockEntry) -> (r: i64)
    ensures
        r == deadline(e@),
{
    e.ts.wrapping_add(
        #[verifier::truncate]
        (e.ttl as i64),
    )
}

/// The locks that have not run out at `now`.
pub open spec fn live(db: LocksView, now: i64) -> LocksView {
    db.restrict(db.dom().filter(|p: Seq<char>| now <= deadline(db[p])))
}

/// Drops the locks that have run out at `now`.
pub fn purge_expired(db: &mut LockDb, now: i64)
    ensures
        final(db)@ == live(old(db)@, now),
{
    let mut out: LockDb = StrMap::new();
    let ghost start = db@;
    let n = db.len();
    let ghost ks = db.keys();
    let mut i: usize = 0;
    while i < n
        invariant
            i <= n == ks.len(),
            ks == db.keys(),
            start == db@,
            strmap::lists(ks, start.dom()),
            forall|p: Seq<char>|
                #[trigger] out@.contains_key(p) <==> ks.take(i as int).contains(p) && now <= deadline(start[p]),
            forall|p: Seq<char>| #[trigger] out@.contains_key(p) ==> out@[p] == start[p],
        decreases n - i,
    {
        let ghost before = out@;
        let ghost seen = ks.take(i as int);
        let e = db.value(i);
        if now <= last_second(e) {
            out.insert(db.key(i).clone(), e.copy());
        }
        proof {
            assert(ks.take(i + 1) =~= seen.push(ks[i as int]));
            assert forall|p: Seq<char>|
                #[trigger] out@.contains_key(p) <==> ks.take(i + 1).contains(p) && now <= deadline(start[p]) by {
                strmap::lemma_push_contains(seen, ks[i as int], p);
                assert(before.contains_key(p) <==> seen.contains(p) && now <= deadline(start[p]));
            }
        }
        i = i + 1;
    }
    proof {
        assert(ks.take(i as int) =~= ks);
        let want = live(start, now);
        assert forall|p: Seq<char>| #[trigger] out@.contains_key(p) <==> want.contains_key(p) by {
            assert(start.dom().contains(p) <==> ks.contains(p));
        }
        assert(out@.dom() =~= want.dom());
        assert(out@ =~= want);
    }
    *db = out;
}

// ---------------------------------------------------------------------------------------
// Tokens
// ---------------------------------------------------------------------------------------
/// The error of the random numbers of the system.
#[verifier::external_type_specification]
#[verifier::external_body]
pub struct ExRandError(rand::Error);

/// Calls `try_fill_bytes` of `rand::rngs::OsRng`. Trusted: where it succeeds, it gives as many
/// bytes as were asked for; which ones is not claimed, nor when it succeeds.
#[verifier::external_body]
fn random_bytes(n: usize) -> (r: Result<Vec<u8>, rand::Error>)
    ensures
        r is Ok ==> r->Ok_0@.len() == n,
{
    let mut b = vec![0u8; n];
    rand::RngCore::try_fill_bytes(&mut rand::rngs::OsRng, &mut b)?;
    Ok(b)
}

/// The token that is made of random bytes.
pub fn token_of(random: &[u8]) -> (r: String)
    ensures
        r@ == encoding::url64(random@),
{
    encode_url(random)
}

/// A new token, made of sixteen random bytes; `None` where the system has none to give.
pub fn lock_token() -> (r: Option<String>)
    ensures
        r is Some ==> exists|b: Seq<u8>| b.len() == 16 && r->0@ == #[trigger] encoding::url64(b),
{
    token_from(&random_bytes(16))
}

/// The token that is made of what the system gave: of its bytes, or none where it failed.
pub fn token_from(got: &Result<Vec<u8>, rand::Error>) -> (r: Option<String>)
    ensures
        match *got {
            Ok(b) => r is Some && r->0@ == encoding::url64(b@),
            Err(_) => r is None,
        },
{
    match got {
        Ok(b) => Some(token_of(b.as_slice())),
        Err(_) => None,
    }
}

// ---------------------------------------------------------------------------------------
// Locks that a commit needs
// ---------------------------------------------------------------------------------------
/// The staged paths that need a lock.
pub open spec fn needs_locks(idx: model::IndexView, cfg: model::ConfigView) -> Set<Seq<char>> {
    idx.put.dom().union(idx.del).filter(|p: Seq<char>| ignore::wants_lock(p, cfg))
}

/// The staged paths that need a lock.
pub fn needed_locks(idx: &Index, cfg: &Config) -> (r: StrSet)
    ensures
        r@ == needs_locks(idx@, cfg@),
{
    let mut out = StrSet::new();
    let n = idx.put.len();
    let ghost ks = idx.put.keys();
    let mut i: usize = 0;
    while i < n
        invariant
            i <= n == ks.len(),
            ks == idx.put.keys(),
            forall|p: Seq<char>|
                #[trigger] out@.contains(p) <==> ks.take(i as int).contains(p) && ignore::wants_lock(p, cfg@),
        decreases n - i,
    {
        let ghost before = out@;
        let ghost seen = ks.take(i as int);
        let p = idx.put.key(i);
        if requires_lock(p.as_str(), cfg) {
            out.insert(p.clone());
        }
        proof {
            assert(ks.take(i + 1) =~= seen.push(ks[i as int]));
            assert forall|q: Seq<char>|
                #[trigger] out@.contains(q) <==> ks.take(i + 1).contains(q) && ignore::wants_lock(q, cfg@) by {
                strmap::lemma_push_contains(seen, ks[i as int], q);
                assert(before.contains(q) <==> seen.contains(q) && ignore::wants_lock(q, cfg@));
            }
        }
        i = i + 1;
    }
    let ghost first = out@;
    assert(ks.take(i as int) =~= ks);
    let m = idx.del.len();
    let ghost ds = idx.del.items();
    let mut j: usize = 0;
    while j < m
        invariant
            j <= m == ds.len(),
            ds == idx.del.items(),
            forall|p: Seq<char>|
                #[trigger] out@.contains(p) <==> first.contains(p) || (ds.take(j as int).contains(p)
                    && ignore::wants_lock(p, cfg@)),
        decreases m - j,
    {
        let ghost before = out@;
        let ghost seen = ds.take(j as int);
        let p = idx.del.item(j);
        if requires_lock(p.as_str(), cfg) {
            out.insert(p.clone());
        }
        proof {
            assert(ds.take(j + 1) =~= seen.push(ds[j as int]));
            assert forall|q: Seq<char>|
                #[trigger] out@.contains(q) <==> first.contains(q) || (ds.take(j + 1).contains(q)
                    && ignore::wants_lock(q, cfg@)) by {
                strmap::lemma_push_contains(seen, ds[j as int], q);
                assert(before.contains(q) <==> first.contains(q) || (seen.contains(q) && ignore::wants_lock(
                    q,
                    cfg@,
                )));
            }
        }
        j = j + 1;
    }
    proof {
        assert(ds.take(j as int) =~= ds);
        let want = needs_locks(idx@, cfg@);
        assert forall|p: Seq<char>| #[trigger] out@.contains(p) <==> want.contains(p) by {
            assert(first.contains(p) <==> ks.contains(p) && ignore::wants_lock(p, cfg@));
            assert(idx.put@.dom().contains(p) <==> ks.contains(p));
            assert(idx.del@.contains(p) <==> ds.contains(p));
        }
        assert(out@ =~= want);
    }
    out
}

/// The owner `me` has no lock on the path.
pub open spec fn is_blocked(db: LocksView, me: Seq<char>, p: Seq<char>) -> bool {
    !db.contains_key(p) || db[p].owner != me
}

/// The line that tells why the path is blocked.
pub open spec fn blocked_line(db: LocksView, p: Seq<char>) -> Seq<char> {
    if db.contains_key(p) {
        p + " (locked by "@ + db[p].owner + ")"@
    } else {
        p + " (missing lock)"@
    }
}

/// The lines that tell which of the paths are blocked for `me`.
pub open spec fn blocked_lines(needed: Set<Seq<char>>, db: LocksView, me: Seq<char>) -> Seq<Seq<char>> {
    strmap::picked(strmap::ascending(needed), |p: Seq<char>| is_blocked(db, me, p)).map_values(
        |p: Seq<char>| blocked_line(db, p),
    )
}

/// The lines that tell which of the paths are blocked for `me`.
pub fn blocked_paths(needed: &StrSet, db: &LockDb, me: &str) -> (r: Vec<String>)
    ensures
        text::texts(r@) == blocked_lines(needed@, db@, me@),
{
    let n = needed.len();
    let ghost ps = needed.items();
    let ghost pick = |p: Seq<char>| is_blocked(db@, me@, p);
    let ghost shape = |p: Seq<char>| blocked_line(db@, p);
    let mut out: Vec<String> = Vec::new();
    let mut i: usize = 0;
    assert(text::texts(out@) =~= strmap::picked(ps.take(0), pick).map_values(shape));
    while i < n
        invariant
            i <= n == ps.len(),
            ps == needed.items(),
            pick == (|p: Seq<char>| is_blocked(db@, me@, p)),
            shape == (|p: Seq<char>| blocked_line(db@, p)),
            text::texts(out@) == strmap::picked(ps.take(i as int), pick).map_values(shape),
        decreases n - i,
    {
        let ghost before = text::texts(out@);
        let p = needed.item(i);
        proof {
            assert(ps.take(i + 1).drop_last() =~= ps.take(i as int));
            assert(ps.take(i + 1).last() == p@);
        }
        let line: Option<String> = match db.get(p.as_str()) {
            None => Some(text::concat(p.as_str(), " (missing lock)")),
            Some(e) => {
                if text::str_eq(e.owner.as_str(), me) {
                    None
                } else {
                    let mut s = text::concat(p.as_str(), " (locked by ");
                    s.append(e.owner.as_str());
                    s.append(")");
                    Some(s)
                }
            },
        };
        match line {
            Some(s) => {
                let ghost sv = s@;
                out.push(s);
                proof {
                    assert(sv == blocked_line(db@, p@));
                    assert(text::texts(out@) =~= before.push(sv));
                    assert(strmap::picked(ps.take(i + 1), pick).map_values(shape) =~= strmap::picked(
                        ps.take(i as int),
                        pick,
                    ).map_values(shape).push(sv));
                }
            },
            None => {},
        }
        i = i + 1;
    }
    assert(ps.take(i as int) =~= ps);
    out
}

/// Each line as an item of a list.
pub open spec fn items(lines: Seq<Seq<char>>) -> Seq<Seq<char>> {
    lines.map_values(|s: Seq<char>| "  - "@ + s)
}

/// The message that refuses a commit.
pub open spec fn refusal(lines: Seq<Seq<char>>) -> Seq<char> {
    "binary locking required:\n"@ + text::joined(items(lines), "\n"@)
        + "\n\nUse:\n  pop lock <path>\n(or pop lock <path> --remote ... --repo ...)\n"@
}

/// The message that refuses a commit because of the blocked paths.
pub fn refusal_text(lines: &Vec<String>) -> (r: String)
    ensures
        r@ == refusal(text::texts(lines@)),
{
    let ghost all = text::texts(lines@);
    let mut rows: Vec<String> = Vec::new();
    let mut i: usize = 0;
    assert(text::texts(rows@) =~= items(all.take(0)));
    while i < lines.len()
        invariant
            i <= lines@.len(),
            all == text::texts(lines@),
            text::texts(rows@) == items(all.take(i as int)),
        decreases lines@.len() - i,
    {
        let ghost before = text::texts(rows@);
        let row = text::concat("  - ", lines[i].as_str());
        let ghost rv = row@;
        rows.push(row);
        proof {
            assert(text::texts(rows@) =~= before.push(rv));
            assert(items(all.take(i + 1)) =~= items(all.take(i as int)).push(rv));
        }
        i = i + 1;
    }
    assert(all.take(i as int) =~= all);
    let mut s = text::concat("binary locking required:\n", text::join(&rows, "\n").as_str());
    s.append("\n\nUse:\n  pop lock <path>\n(or pop lock <path> --remote ... --repo ...)\n");
    s
}

/// Drops the locks that have run out, and refuses what is staged where `me` lacks a lock that
/// it needs.
pub fn assert_locks_for_index(idx: &Index, cfg: &Config, db: &mut LockDb, me: &str, now: i64) -> (r: Result<(), String>)
    ensures
        final(db)@ == live(old(db)@, now),
        match r {
            Ok(()) => blocked_lines(needs_locks(idx@, cfg@), live(old(db)@, now), me@).len() == 0,
            Err(message) => blocked_lines(needs_locks(idx@, cfg@), live(old(db)@, now), me@).len() > 0
                && message@ == refusal(blocked_lines(needs_locks(idx@, cfg@), live(old(db)@, now), me@)),
        },
{
    purge_expired(db, now);
    let needed = needed_locks(idx, cfg);
    let lines = blocked_paths(&needed, db, me);
    if lines.len() > 0 {
        return Err(refusal_text(&lines));
    }
    Ok(())
}

// ---------------------------------------------------------------------------------------
// Locks of this repository
// ---------------------------------------------------------------------------------------
/// How an order on the locks ends: whether it is met, whether the locks are to be written, and
/// what is said.
#[derive(Clone, Debug, PartialEq, Eq)]
pub struct Answer {
    pub ok: bool,
    pub save: bool,
    pub message: String,
}

/// What an `Answer` says.
pub struct AnswerView {
    pub ok: bool,
    pub save: bool,
    pub message: Seq<char>,
}

impl View for Answer {
    type V = AnswerView;

    open spec fn view(&self) -> AnswerView {
        AnswerView { ok: self.ok, save: self.save, message: self.message@ }
    }
}

fn three(a: &str, b: &str, c: &str) -> (r: String)
    ensures
        r@ == a@ + b@ + c@,
{
    let mut s = text::concat(a, b);
    s.append(c);
    s
}

/// The locks once `me` has asked for one on `p`.
pub open spec fn after_lock(db: LocksView, e: LockView) -> LocksView {
    if db.contains_key(e.path) {
        db
    } else {
        db.insert(e.path, e)
    }
}

/// The answer to `me`, who asks for a lock on `p`.
pub open spec fn lock_answer(db: LocksView, p: Seq<char>, me: Seq<char>) -> AnswerView {
    if !db.contains_key(p) {
        AnswerView { ok: true, save: true, message: "locked "@ + p }
    } else if db[p].owner == me {
        AnswerView { ok: true, save: false, message: "already locked: "@ + p + " (you)"@ }
    } else {
        AnswerView { ok: false, save: false, message: "already locked: "@ + p + " by "@ + db[p].owner }
    }
}

/// Locks the path `p` for `me`, unless it is locked.
pub fn lock_local(db: &mut LockDb, p: &str, me: &str, token: &str, now: i64, ttl: u64) -> (r: Answer)
    ensures
        p@.len() == 0 ==> final(db)@ == old(db)@ && r@ == (AnswerView {
            ok: false,
            save: false,
            message: "bad path"@,
        }),
        p@.len() > 0 ==> r@ == lock_answer(live(old(db)@, now), p@, me@) && final(db)@ == after_lock(
            live(old(db)@, now),
            (LockView { path: p@, owner: me@, token: token@, ts: now, ttl }),
        ),
{
    if p.is_empty() {
        return Answer { ok: false, save: false, message: String::from_str("bad path") };
    }
    purge_expired(db, now);
    let found: Option<Answer> = match db.get(p) {
        Some(e) => {
            if text::str_eq(e.owner.as_str(), me) {
                Some(Answer { ok: true, save: false, message: three("already locked: ", p, " (you)") })
            } else {
                let mut s = three("already locked: ", p, " by ");
                s.append(e.owner.as_str());
                Some(Answer { ok: false, save: false, message: s })
            }
        },
        None => None,
    };
    match found {
        Some(a) => a,
        None => {
            db.insert(
                String::from_str(p),
                LockEntry {
                    path: String::from_str(p),
                    owner: String::from_str(me),
                    token: String::from_str(token),
                    ts: now,
                    ttl,
                },
            );
            Answer { ok: true, save: true, message: text::concat("locked ", p) }
        },
    }
}

/// The answer to `me`, who gives up the lock on `p`.
pub open spec fn unlock_answer(db: LocksView, p: Seq<char>, me: Seq<char>) -> AnswerView {
    if !db.contains_key(p) {
        AnswerView { ok: true, save: false, message: "not locked: "@ + p }
    } else if db[p].owner == me {
        AnswerView { ok: true, save: true, message: "unlocked "@ + p }
    } else {
        AnswerView {
            ok: false,
            save: false,
            message: "cannot unlock: "@ + p + " locked by "@ + db[p].owner,
        }
    }
}

/// Unlocks the path `p`, where `me` has locked it.
pub fn unlock_local(db: &mut LockDb, p: &str, me: &str, now: i64) -> (r: Answer)
    ensures
        r@ == unlock_answer(live(old(db)@, now), p@, me@),
        final(db)@ == (if r.save {
            live(old(db)@, now).remove(p@)
        } else {
            live(old(db)@, now)
        }),
{
    purge_expired(db, now);
    let other: Option<String> = match db.get(p) {
        None => {
            return Answer { ok: true, save: false, message: text::concat("not locked: ", p) };
        },
        Some(e) => {
            if text::str_eq(e.owner.as_str(), me) {
                None
            } else {
                Some(e.owner.clone())
            }
        },
    };
    match other {
        Some(owner) => {
            let mut s = three("cannot unlock: ", p, " locked by ");
            s.append(owner.as_str());
            Answer { ok: false, save: false, message: s }
        },
        None => {
            db.remove(p);
            Answer { ok: true, save: true, message: text::concat("unlocked ", p) }
        },
    }
}

/// The answer to `me`, who asks for more time on `p`.
pub open spec fn renew_answer(db: LocksView, p: Seq<char>, me: Seq<char>) -> AnswerView {
    if !db.contains_key(p) {
        AnswerView { ok: false, save: false, message: "not locked: "@ + p }
    } else if db[p].owner == me {
        AnswerView { ok: true, save: true, message: "renewed "@ + p }
    } else {
        AnswerView { ok: false, save: false, message: "cannot renew: locked by "@ + db[p].owner }
    }
}

/// The lock `e` from `now` on for `ttl` seconds.
pub open spec fn renewed(e: LockView, now: i64, ttl: u64) -> LockView {
    LockView { ts: now, ttl, ..e }
}

fn renewed_copy(e: &LockEntry, now: i64, ttl: u64) -> (r: LockEntry)
    ensures
        r@ == renewed(e@, now, ttl),
{
    LockEntry { path: e.path.clone(), owner: e.owner.clone(), token: e.token.clone(), ts: now, ttl }
}

/// Gives the lock on `p` more time, where `me` has locked it.
pub fn renew_local(db: &mut LockDb, p: &str, me: &str, now: i64, ttl: u64) -> (r: Answer)
    ensures
        r@ == renew_answer(live(old(db)@, now), p@, me@),
        final(db)@ == (if r.save {
            live(old(db)@, now).insert(p@, renewed(live(old(db)@, now)[p@], now, ttl))
        } else {
            live(old(db)@, now)
        }),
{
    purge_expired(db, now);
    let fresh: LockEntry = match db.get(p) {
        None => {
            return Answer { ok: false, save: false, message: text::concat("not locked: ", p) };
        },
        Some(e) => {
            if !text::str_eq(e.owner.as_str(), me) {
                return Answer {
                    ok: false,
                    save: false,
                    message: text::concat("cannot renew: locked by ", e.owner.as_str()),
                };
            }
            renewed_copy(e, now, ttl)
        },
    };
    db.insert(String::from_str(p), fresh);
    Answer { ok: true, save: true, message: text::concat("renewed ", p) }
}

/// The seconds that a lock has left at `now`.
pub open spec fn seconds_left(e: LockView, now: i64) -> nat {
    if deadline(e).wrapping_sub(now) > 0 {
        deadline(e).wrapping_sub(now) as nat
    } else {
        0
    }
}

/// The line that tells of a lock.
pub open spec fn lock_line(e: LockView, now: i64) -> Seq<char> {
    e.path + "  owner="@ + e.owner + "  expires_in="@ + text::decimal(seconds_left(e, now)) + "s"@
}

/// The lines that tell of all locks.
pub open spec fn lock_lines(db: LocksView, now: i64) -> Seq<Seq<char>> {
    if db == Map::<Seq<char>, LockView>::empty() {
        seq!["(no locks)"@]
    } else {
        in_order(db).map_values(|e: LockView| lock_line(e, now))
    }
}

/// Drops the locks that have run out, and tells of the others.
pub fn list_locks_local(db: &mut LockDb, now: i64) -> (r: Vec<String>)
    ensures
        final(db)@ == live(old(db)@, now),
        text::texts(r@) == lock_lines(live(old(db)@, now), now),
{
    purge_expired(db, now);
    let mut out: Vec<String> = Vec::new();
    if db.is_empty() {
        out.push(String::from_str("(no locks)"));
        assert(text::texts(out@) =~= seq!["(no locks)"@]);
        return out;
    }
    let list = lock_list(db);
    let ghost all = lock_views(list@);
    let ghost shape = |e: LockView| lock_line(e, now);
    let mut i: usize = 0;
    assert(text::texts(out@) =~= all.take(0).map_values(shape));
    while i < list.len()
        invariant
            i <= list@.len(),
            all == lock_views(list@),
            shape == (|e: LockView| lock_line(e, now)),
            text::texts(out@) == all.take(i as int).map_values(shape),
        decreases list@.len() - i,
    {
        let ghost before = text::texts(out@);
        let e = &list[i];
        let left: i64 = last_second(e).wrapping_sub(now);
        let shown: u64 = if left > 0 {
            left as u64
        } else {
            0
        };
        let mut s = three(e.path.as_str(), "  owner=", e.owner.as_str());
        s.append("  expires_in=");
        s.append(text::decimal_text(shown).as_str());
        s.append("s");
        let ghost sv = s@;
        out.push(s);
        proof {
            assert(sv == lock_line(e@, now));
            assert(text::texts(out@) =~= before.push(sv));
            assert(all.take(i + 1).map_values(shape) =~= all.take(i as int).map_values(shape).push(sv));
        }
        i = i + 1;
    }
    assert(all.take(i as int) =~= all);
    out
}

// ---------------------------------------------------------------------------------------
// Locks on a server
// ---------------------------------------------------------------------------------------
/// A request for a lock.
#[derive(Clone, Debug, PartialEq, Eq)]
pub struct LockReq {
    pub path: String,
    pub owner: String,
    pub token: String,
    pub ttl: u64,
}

/// What a server answers to a request for a lock.
#[derive(Clone, Debug, PartialEq, Eq)]
pub struct LockResp {
    pub ok: bool,
    pub message: String,
    pub locks: Vec<LockEntry>,
}

/// A reply of a server: its status, whether the locks are to be written, and what it says.
#[derive(Clone, Debug, PartialEq, Eq)]
pub struct LockReply {
    pub status: u16,
    pub save: bool,
    pub resp: LockResp,
}

/// What a `LockReply` says.
#[verifier::ext_equal]
pub struct ReplyView {
    pub status: u16,
    pub save: bool,
    pub ok: bool,
    pub message: Seq<char>,
    pub locks: Seq<LockView>,
}

impl View for LockReply {
    type V = ReplyView;

    open spec fn view(&self) -> ReplyView {
        ReplyView {
            status: self.status,
            save: self.save,
            ok: self.resp.ok,
            message: self.resp.message@,
            locks: lock_views(self.resp.locks@),
        }
    }
}

/// The reply to a request that is not allowed.
pub open spec fn unauthorized() -> ReplyView {
    ReplyView { status: 401, save: false, ok: false, message: "unauthorized"@, locks: Seq::empty() }
}

/// A request that is met: the locks are written and listed.
pub open spec fn granted(message: Seq<char>, db: LocksView) -> ReplyView {
    ReplyView { status: 200, save: true, ok: true, message, locks: in_order(db) }
}

/// A request that is turned down: the locks stay, and are listed.
pub open spec fn denied(status: u16, message: Seq<char>, db: LocksView) -> ReplyView {
    ReplyView { status, save: false, ok: false, message, locks: in_order(db) }
}

fn deny_all() -> (r: LockReply)
    ensures
        r@ == unauthorized(),
{
    let r = LockReply {
        status: 401,
        save: false,
        resp: LockResp { ok: false, message: String::from_str("unauthorized"), locks: Vec::new() },
    };
    assert(r@ =~= unauthorized());
    r
}

fn grant(message: &str, db: &LockDb) -> (r: LockReply)
    ensures
        r@ == granted(message@, db@),
{
    LockReply {
        status: 200,
        save: true,
        resp: LockResp { ok: true, message: String::from_str(message), locks: lock_list(db) },
    }
}

fn deny(status: u16, message: String, db: &LockDb) -> (r: LockReply)
    ensures
        r@ == denied(status, message@, db@),
{
    LockReply { status, save: false, resp: LockResp { ok: false, message, locks: lock_list(db) } }
}

/// Lists the locks.
pub fn list_locks_repo(authorized: bool, db: &mut LockDb, now: i64) -> (r: LockReply)
    ensures
        !authorized ==> r@ == unauthorized() && final(db)@ == old(db)@,
        authorized ==> final(db)@ == live(old(db)@, now) && r@ == granted("ok"@, live(old(db)@, now)),
{
    if !authorized {
        return deny_all();
    }
    purge_expired(db, now);
    grant("ok", db)
}

/// The lock that is asked for.
pub open spec fn asked(req: LockReq, now: i64) -> LockView {
    LockView { path: req.path@, owner: req.owner@, token: req.token@, ts: now, ttl: req.ttl }
}

/// Someone else than who asks has locked the path.
pub open spec fn taken(db: LocksView, req: LockReq) -> bool {
    db.contains_key(req.path@) && db[req.path@].owner != req.owner@
}

/// Locks the path, unless someone else has locked it. Who asks again gets a new lock.
pub fn lock_repo(authorized: bool, db: &mut LockDb, req: &LockReq, now: i64) -> (r: LockReply)
    ensures
        !authorized ==> r@ == unauthorized() && final(db)@ == old(db)@,
        authorized && taken(live(old(db)@, now), *req) ==> final(db)@ == live(old(db)@, now) && r@ == denied(
            409,
            "already locked by "@ + live(old(db)@, now)[req.path@].owner,
            final(db)@,
        ),
        authorized && !taken(live(old(db)@, now), *req) ==> final(db)@ == live(old(db)@, now).insert(
            req.path@,
            asked(*req, now),
        ) && r@ == granted("locked"@, final(db)@),
{
    if !authorized {
        return deny_all();
    }
    purge_expired(db, now);
    let other: Option<String> = match db.get(req.path.as_str()) {
        Some(e) => {
            if text::str_eq(e.owner.as_str(), req.owner.as_str()) {
                None
            } else {
                Some(e.owner.clone())
            }
        },
        None => None,
    };
    match other {
        Some(owner) => {
            let message = text::concat("already locked by ", owner.as_str());
            deny(409, message, db)
        },
        None => {
            db.insert(
                req.path.clone(),
                LockEntry {
                    path: req.path.clone(),
                    owner: req.owner.clone(),
                    token: req.token.clone(),
                    ts: now,
                    ttl: req.ttl,
                },
            );
            grant("locked", db)
        },
    }
}

/// Who asks is not who has locked the path, or does not bring the token.
pub open spec fn not_theirs(db: LocksView, req: LockReq) -> bool {
    db.contains_key(req.path@) && (db[req.path@].owner != req.owner@ || db[req.path@].token != req.token@)
}

fn brings_proof(e: &LockEntry, req: &LockReq) -> (r: bool)
    ensures
        r == (e.owner@ == req.owner@ && e.token@ == req.token@),
{
    text::str_eq(e.owner.as_str(), req.owner.as_str()) && ct_eq_text(e.token.as_str(), req.token.as_str())
}

/// Unlocks the path for its owner, who brings the token. To unlock what is not locked is met.
pub fn unlock_repo(authorized: bool, db: &mut LockDb, req: &LockReq, now: i64) -> (r: LockReply)
    ensures
        !authorized ==> r@ == unauthorized() && final(db)@ == old(db)@,
        authorized && not_theirs(live(old(db)@, now), *req) ==> final(db)@ == live(old(db)@, now) && r@ == denied(
            403,
            "bad owner or token"@,
            final(db)@,
        ),
        authorized && !not_theirs(live(old(db)@, now), *req) ==> final(db)@ == live(old(db)@, now).remove(req.path@)
            && r@ == granted("unlocked"@, final(db)@),
{
    if !authorized {
        return deny_all();
    }
    purge_expired(db, now);
    let refused = match db.get(req.path.as_str()) {
        None => false,
        Some(e) => !brings_proof(e, req),
    };
    if refused {
        return deny(403, String::from_str("bad owner or token"), db);
    }
    db.remove(req.path.as_str());
    grant("unlocked", db)
}

/// Gives the lock on the path more time, for its owner, who brings the token.
pub fn renew_repo(authorized: bool, db: &mut LockDb, req: &LockReq, now: i64) -> (r: LockReply)
    ensures
        !authorized ==> r@ == unauthorized() && final(db)@ == old(db)@,
        authorized && !live(old(db)@, now).contains_key(req.path@) ==> final(db)@ == live(old(db)@, now) && r@
            == denied(404, "not locked"@, final(db)@),
        authorized && not_theirs(live(old(db)@, now), *req) ==> final(db)@ == live(old(db)@, now) && r@ == denied(
            403,
            "bad owner or token"@,
            final(db)@,
        ),
        authorized && live(old(db)@, now).contains_key(req.path@) && !not_theirs(live(old(db)@, now), *req)
            ==> final(db)@ == live(old(db)@, now).insert(
            req.path@,
            renewed(live(old(db)@, now)[req.path@], now, req.ttl),
        ) && r@ == granted("renewed"@, final(db)@),
{
    if !authorized {
        return deny_all();
    }
    purge_expired(db, now);
    let fresh: Option<LockEntry> = match db.get(req.path.as_str()) {
        None => {
            return deny(404, String::from_str("not locked"), db);
        },
        Some(e) => {
            if brings_proof(e, req) {
                Some(renewed_copy(e, now, req.ttl))
            } else {
                None
            }
        },
    };
    match fresh {
        Some(e) => {
            db.insert(req.path.clone(), e);
            grant("renewed", db)
        },
        None => deny(403, String::from_str("bad owner or token"), db),
    }
}

// ---------------------------------------------------------------------------------------
// Laws
// ---------------------------------------------------------------------------------------
/// Dropping what has run out twice is dropping it once, and nothing comes back with time.
pub proof fn law_expiry_is_final(db: LocksView, now: i64, later: i64)
    requires
        now <= later,
    ensures
        live(live(db, now), later) == live(db, later),
{
    let a = live(live(db, now), later);
    let b = live(db, later);
    assert(a.dom() =~= b.dom());
    assert(a =~= b);
}

/// Of two owners only one holds a path: once a lock is granted, no one else gets it before it
/// runs out, and no one else's order changes it.
pub proof fn law_locks_exclude(db: LocksView, p: Seq<char>, me: Seq<char>, e: LockView)
    requires
        db.contains_key(p),
        db[p].owner != me,
        e.path == p,
    ensures
        !lock_answer(db, p, me).ok && after_lock(db, e) == db,
        !unlock_answer(db, p, me).ok && !unlock_answer(db, p, me).save,
        !renew_answer(db, p, me).ok && !renew_answer(db, p, me).save,
{
}

/// Who has a lock may commit the path, and unlocking it makes it free for the next.
pub proof fn law_lock_then_unlock(db: LocksView, me: Seq<char>, e: LockView)
    requires
        !db.contains_key(e.path),
        e.owner == me,
    ensures
        !is_blocked(after_lock(db, e), me, e.path),
        unlock_answer(after_lock(db, e), e.path, me).ok,
        after_lock(db, e).remove(e.path) == db,
{
    assert(after_lock(db, e).remove(e.path) =~= db);
}

/// On a server, too, only one of two owners holds a path: a request of another neither gets the
/// lock, nor drops it, nor renews it.
pub proof fn law_server_locks_exclude(db: LocksView, req: LockReq)
    requires
        db.contains_key(req.path@),
        db[req.path@].owner != req.owner@,
    ensures
        taken(db, req),
        not_theirs(db, req),
{
}

/// Who was granted a lock by a server may ask for it again, and may drop it with the same
/// request: then the path is free, and the other locks are as they were.
pub proof fn law_server_lock_then_unlock(db: LocksView, req: LockReq, now: i64)
    ensures
        ({
            let held = db.insert(req.path@, asked(req, now));
            &&& !taken(held, req)
            &&& !not_theirs(held, req)
            &&& held.remove(req.path@) == db.remove(req.path@)
        }),
{
    let held = db.insert(req.path@, asked(req, now));
    assert(held.remove(req.path@) =~= db.remove(req.path@));
}

/// A new lock is live for its time: at any moment from `ts` on for `ttl` seconds.
pub proof fn law_lock_lasts(db: LocksView, e: LockView, now: i64)
    requires
        e.ttl <= i64::MAX,
        e.ts + e.ttl <= i64::MAX,
        e.ts <= now <= e.ts + e.ttl,
    ensures
        live(db.insert(e.path, e), now).contains_key(e.path),
        forall|after: i64| after > e.ts + e.ttl ==> !(#[trigger] live(db.insert(e.path, e), after)).contains_key(
            e.path,
        ),
{
    assert(deadline(e) == e.ts + e.ttl);
}

/// A commit is refused exactly where it stages a path that needs a lock which `me` has not.
pub proof fn law_commit_needs_locks(needed: Set<Seq<char>>, db: LocksView, me: Seq<char>)
    requires
        needed.finite(),
    ensures
        blocked_lines(needed, db, me).len() == 0 <==> forall|p: Seq<char>| #[trigger]
            needed.contains(p) ==> db.contains_key(p) && db[p].owner == me,
{
    let ps = strmap::lemma_listed(needed);
    let pick = |p: Seq<char>| is_blocked(db, me, p);
    let out = strmap::picked(ps, pick);
    strmap::lemma_picked_contains(ps, pick);
    assert(blocked_lines(needed, db, me).len() == out.len());
    if out.len() > 0 {
        assert(out.contains(out[0]));
        assert(ps.contains(out[0]));
        assert(needed.contains(out[0]));
    } else {
        assert forall|p: Seq<char>| #[trigger] needed.contains(p) implies db.contains_key(p) && db[p].owner == me by {
            assert(ps.contains(p));
            if is_blocked(db, me, p) {
                assert(out.contains(p));
            }
        }
    }
}

/// A lock is live up to the last second of its time, and dropped after it; a live lock is as it
/// was. This needs that the last second is one that the clock can tell.
pub proof fn law_live_exactly(db: LocksView, now: i64, p: Seq<char>)
    requires
        db.contains_key(p) ==> db[p].ttl <= i64::MAX && i64::MIN <= db[p].ts + db[p].ttl <= i64::MAX,
    ensures
        live(db, now).contains_key(p) <==> db.contains_key(p) && now <= db[p].ts + db[p].ttl,
        live(db, now).contains_key(p) ==> live(db, now)[p] == db[p],
{
}

/// A commit needs a lock on exactly the paths that are staged, to be put or to be deleted, and for
/// which the configuration wants one.
pub proof fn law_staged_paths_need_locks(idx: model::IndexView, cfg: model::ConfigView, p: Seq<char>)
    ensures
        needs_locks(idx, cfg).contains(p) <==> (idx.put.contains_key(p) || idx.del.contains(p)) && ignore::wants_lock(
            p,
            cfg,
        ),
{
}

/// Every path that blocks a commit is told, with who has locked it, or that no one has; and no
/// other path is.
pub proof fn law_blocked_paths_are_told(needed: Set<Seq<char>>, db: LocksView, me: Seq<char>, p: Seq<char>)
    requires
        needed.finite(),
    ensures
        needed.contains(p) && !db.contains_key(p) ==> blocked_lines(needed, db, me).contains(p + " (missing lock)"@),
        needed.contains(p) && db.contains_key(p) && db[p].owner != me ==> blocked_lines(needed, db, me).contains(
            p + " (locked by "@ + db[p].owner + ")"@,
        ),
        blocked_lines(needed, db, me).len() == needed.filter(
            |q: Seq<char>| !(db.contains_key(q) && db[q].owner == me),
        ).len(),
{
    let ps = strmap::lemma_listed(needed);
    let pick = |q: Seq<char>| is_blocked(db, me, q);
    let shape = |q: Seq<char>| blocked_line(db, q);
    let s = strmap::picked(ps, pick);
    strmap::lemma_picked_contains(ps, pick);
    strmap::lemma_picked_ascending(ps, needed, pick);
    let sub = needed.filter(pick);
    strmap::law_ascending_lists_each_member(sub, p);
    assert(needed.filter(|q: Seq<char>| !(db.contains_key(q) && db[q].owner == me)) =~= sub);
    if needed.contains(p) && is_blocked(db, me, p) {
        assert(ps.contains(p));
        assert(s.contains(p));
        let i = choose|i: int| 0 <= i < s.len() && s[i] == p;
        assert(blocked_lines(needed, db, me)[i] == blocked_line(db, p));
    }
}

/// The message of a refused commit lists each of its lines as an item.
pub proof fn law_refusal_lists_the_lines(lines: Seq<Seq<char>>, line: Seq<char>)
    ensures
        text::has_prefix(refusal(lines), "binary locking required:\n"@),
        refusal(seq![line]) == "binary locking required:\n"@ + "  - "@ + line
            + "\n\nUse:\n  pop lock <path>\n(or pop lock <path> --remote ... --repo ...)\n"@,
        items(lines.push(line)) == items(lines).push("  - "@ + line),
{
    let head = "binary locking required:\n"@;
    assert(refusal(lines).take(head.len() as int) =~= head);
    assert(items(seq![line]) =~= seq!["  - "@ + line]);
    assert(text::joined(items(seq![line]), "\n"@) == "  - "@ + line);
    assert(refusal(seq![line]) =~= head + "  - "@ + line
        + "\n\nUse:\n  pop lock <path>\n(or pop lock <path> --remote ... --repo ...)\n"@);
    assert(items(lines.push(line)) =~= items(lines).push("  - "@ + line));
}

/// A path that no one has locked is locked for who asks, just as asked; one that is locked is told
/// to be, and stays as it is. No other path changes.
pub proof fn law_lock_is_granted_where_free(db: LocksView, e: LockView, q: Seq<char>)
    ensures
        !db.contains_key(e.path) ==> lock_answer(db, e.path, e.owner).ok && lock_answer(db, e.path, e.owner).save
            && after_lock(db, e).contains_pair(e.path, e),
        db.contains_key(e.path) ==> !lock_answer(db, e.path, e.owner).save && after_lock(db, e) == db && (lock_answer(
            db,
            e.path,
            e.owner,
        ).ok <==> db[e.path].owner == e.owner),
        q != e.path ==> (after_lock(db, e).contains_key(q) <==> db.contains_key(q)),
        q != e.path && db.contains_key(q) ==> after_lock(db, e)[q] == db[q],
{
}

/// Who has locked a path may unlock and renew it, no one else may, and of a path that is not
/// locked to unlock it is met and to renew it is not.
pub proof fn law_only_the_owner_unlocks_and_renews(db: LocksView, p: Seq<char>, me: Seq<char>)
    ensures
        unlock_answer(db, p, me).ok <==> !db.contains_key(p) || db[p].owner == me,
        unlock_answer(db, p, me).save <==> db.contains_key(p) && db[p].owner == me,
        renew_answer(db, p, me).ok <==> db.contains_key(p) && db[p].owner == me,
        renew_answer(db, p, me).save <==> db.contains_key(p) && db[p].owner == me,
{
}

/// A renewed lock has the new time from now on and is else the same.
pub proof fn law_renewing_changes_the_time_alone(e: LockView, now: i64, ttl: u64)
    ensures
        renewed(e, now, ttl).path == e.path,
        renewed(e, now, ttl).owner == e.owner,
        renewed(e, now, ttl).token == e.token,
        renewed(e, now, ttl).ts == now,
        renewed(e, now, ttl).ttl == ttl,
{
}

/// A lock has as many seconds left as its last second is away, and none once it has run out.
pub proof fn law_seconds_left_count_down(e: LockView, now: i64)
    requires
        e.ttl <= i64::MAX,
        0 <= now,
        0 <= e.ts,
        e.ts + e.ttl <= i64::MAX,
    ensures
        now <= e.ts + e.ttl ==> seconds_left(e, now) == e.ts + e.ttl - now,
        now > e.ts + e.ttl ==> seconds_left(e, now) == 0,
{
}

/// The list of the locks holds each of them once, in ascending order of their paths.
pub proof fn law_locks_are_listed_once(db: LocksView, p: Seq<char>)
    requires
        db.dom().finite(),
    ensures
        in_order(db).len() == db.dom().len(),
        db.contains_key(p) ==> in_order(db).contains(db[p]),
        forall|i: int|
            0 <= i < in_order(db).len() ==> db.contains_key(strmap::ascending(db.dom())[i]) && #[trigger] in_order(db)[i]
                == db[strmap::ascending(db.dom())[i]],
{
    let ks = strmap::lemma_listed(db.dom());
    strmap::law_ascending_lists_each_member(db.dom(), p);
    if db.contains_key(p) {
        assert(ks.contains(p));
        let i = choose|i: int| 0 <= i < ks.len() && ks[i] == p;
        assert(in_order(db)[i] == db[p]);
    }
    assert forall|i: int| 0 <= i < in_order(db).len() implies db.contains_key(ks[i]) && #[trigger] in_order(db)[i]
        == db[ks[i]] by {
        assert(ks.contains(ks[i]));
        assert(db.dom().contains(ks[i]));
    }
}

/// Each lock is told with its path, its owner and the seconds that it has left; where there is
/// none, one line says so.
pub proof fn law_every_lock_is_told(db: LocksView, now: i64, p: Seq<char>)
    requires
        db.dom().finite(),
    ensures
        db.contains_key(p) ==> lock_lines(db, now).len() == db.dom().len() && lock_lines(db, now).contains(
            db[p].path + "  owner="@ + db[p].owner + "  expires_in="@ + text::decimal(seconds_left(db[p], now)) + "s"@,
        ),
        db.dom().len() == 0 ==> lock_lines(db, now).len() == 1 && lock_lines(db, now)[0] == "(no locks)"@,
{
    law_locks_are_listed_once(db, p);
    if db.contains_key(p) {
        assert(db != Map::<Seq<char>, LockView>::empty());
        let i = choose|i: int| 0 <= i < in_order(db).len() && in_order(db)[i] == db[p];
        assert(lock_lines(db, now)[i] == lock_line(db[p], now));
    }
    if db.dom().len() == 0 {
        assert(db.dom() =~= Set::empty());
        assert(db =~= Map::<Seq<char>, LockView>::empty());
    }
}

/// A server grants a lock to who asks for it unless another owner has it, takes as the lock what
/// was asked for, and unlocks and renews for who brings both the owner and the token.
pub proof fn law_server_locks_exactly(db: LocksView, req: LockReq, now: i64)
    ensures
        taken(db, req) <==> db.contains_key(req.path@) && db[req.path@].owner != req.owner@,
        not_theirs(db, req) <==> db.contains_key(req.path@) && !(db[req.path@].owner == req.owner@ && db[req.path@].token
            == req.token@),
        asked(req, now).path == req.path@,
        asked(req, now).owner == req.owner@,
        asked(req, now).token == req.token@,
        asked(req, now).ttl == req.ttl,
        asked(req, now).ts == now,
{
}

/// A server tells who is allowed of all locks, whether it meets the request or not, and tells who
/// is not allowed of none. It writes the locks only where it meets the request.
pub proof fn law_server_replies_list_the_locks(db: LocksView, status: u16, message: Seq<char>)
    ensures
        granted(message, db).ok && granted(message, db).save && granted(message, db).status == 200,
        granted(message, db).locks == in_order(db) && granted(message, db).message == message,
        !denied(status, message, db).ok && !denied(status, message, db).save && denied(status, message, db).status
            == status,
        denied(status, message, db).locks == in_order(db) && denied(status, message, db).message == message,
        !unauthorized().ok && !unauthorized().save && unauthorized().status == 401 && unauthorized().locks.len() == 0,
{
}

/// What the commands on locks answer names the path, and who holds it where it is someone else.
pub proof fn law_answers_name_path_and_owner(db: LocksView, p: Seq<char>, me: Seq<char>)
    ensures
        !db.contains_key(p) ==> lock_answer(db, p, me).message == "locked "@ + p && unlock_answer(db, p, me).message
            == "not locked: "@ + p && renew_answer(db, p, me).message == "not locked: "@ + p,
        db.contains_key(p) && db[p].owner == me ==> lock_answer(db, p, me).message == "already locked: "@ + p
            + " (you)"@ && unlock_answer(db, p, me).message == "unlocked "@ + p && renew_answer(db, p, me).message
            == "renewed "@ + p,
        db.contains_key(p) && db[p].owner != me ==> lock_answer(db, p, me).message == "already locked: "@ + p + " by "@
            + db[p].owner && unlock_answer(db, p, me).message == "cannot unlock: "@ + p + " locked by "@ + db[p].owner
            && renew_answer(db, p, me).message == "cannot renew: locked by "@ + db[p].owner,
{
}

/// Locks, answers and replies say what their fields hold.
pub proof fn law_locks_say_their_fields(v: Seq<LockEntry>, e: LockEntry, a: Answer, r: LockReply, i: int)
    ensures
        lock_views(v).len() == v.len(),
        0 <= i < v.len() ==> lock_views(v)[i] == v[i]@,
        e@.path == e.path@ && e@.owner == e.owner@ && e@.token == e.token@ && e@.ts == e.ts && e@.ttl == e.ttl,
        a@.ok == a.ok && a@.save == a.save && a@.message == a.message@,
        r@.status == r.status && r@.save == r.save && r@.ok == r.resp.ok && r@.message == r.resp.message@ && r@.locks
            == lock_views(r.resp.locks@),
{
}

} // verus!

//! What a server answers.

use vstd::prelude::*;
use vstd::string::*;

use crate::bytes;
use crate::encoding;
use crate::encoding::{decode_base64, encode_base64};
use crate::model;
use crate::model::RemoteBundle;
use crate::objects::names_object;
use crate::strmap::StrMap;
use crate::text;

verus! {

// ---------------------------------------------------------------------------------------
// Repositories
// ---------------------------------------------------------------------------------------
/// A name that a repository on a server may have: it leads nowhere else.
pub open spec fn good_name(repo: Seq<char>) -> bool {
    !text::has_dot_dot(repo) && !repo.contains('/') && !repo.contains('\\')
}

/// Whether a repository on a server may have this name.
pub fn repo_name_ok(repo: &str) -> (r: bool)
    ensures
        r == good_name(repo@),
{
    !text::contains_dot_dot(repo) && !text::has_char(repo, '/') && !text::has_char(repo, '\\')
}

/// No text comes before one that stands further to the front.
pub open spec fn in_order(s: Seq<Seq<char>>) -> bool {
    forall|i: int, j: int| 0 <= i < j < s.len() ==> !text::lex_lt(#[trigger] s[j], #[trigger] s[i])
}

fn place_name(v: &mut Vec<String>, x: String)
    requires
        in_order(text::texts(old(v)@)),
    ensures
        in_order(text::texts(final(v)@)),
        text::texts(final(v)@).to_multiset() == text::texts(old(v)@).to_multiset().insert(x@),
{
    let ghost s = text::texts(v@);
    let mut j: usize = v.len();
    while j > 0 && text::str_lt(x.as_str(), v[j - 1].as_str())
        invariant
            j <= v@.len(),
            s == text::texts(v@),
            forall|k: int| j <= k < s.len() ==> text::lex_lt(x@, #[trigger] s[k]),
        decreases j,
    {
        j = j - 1;
    }
    let ghost xv = x@;
    v.insert(j, x);
    proof {
        let t = text::texts(v@);
        assert(t =~= s.insert(j as int, xv));
        assert(t.remove(j as int) =~= s);
        vstd::seq_lib::to_multiset_remove(t, j as int);
        t.to_multiset_ensures();
        assert(t.contains(t[j as int]));
        assert(t.to_multiset().count(xv) > 0);
        assert(t.to_multiset() =~= s.to_multiset().insert(xv));
        if j > 0 {
            assert(!text::lex_lt(xv, s[j - 1]));
        }
        assert forall|a: int, b: int| 0 <= a < b < t.len() implies !text::lex_lt(#[trigger] t[b], #[trigger] t[a]) by {
            if b < j {
                assert(t[a] == s[a] && t[b] == s[b]);
            } else if b == j {
                assert(t[a] == s[a]);
                if text::lex_lt(xv, s[a]) && a < j - 1 {
                    assert(!text::lex_lt(s[j - 1], s[a]));
                    text::lemma_lex_total(s[j - 1], s[a]);
                    if text::lex_lt(s[a], s[j - 1]) {
                        text::lemma_lex_transitive(xv, s[a], s[j - 1]);
                    }
                }
            } else {
                assert(t[b] == s[b - 1]);
                if a == j {
                    text::lemma_lex_asymmetric(xv, s[b - 1]);
                } else if a < j {
                    assert(t[a] == s[a]);
                } else {
                    assert(t[a] == s[a - 1]);
                }
            }
        }
    }
}

/// What a server answers to who asks for its repositories: a status, and the names.
pub struct ListReply {
    pub status: u16,
    pub ok: bool,
    pub repos: Vec<String>,
}

/// Lists the repositories. `names` are the directories that are there.
pub fn list_repos(authorized: bool, names: &Vec<String>) -> (r: ListReply)
    ensures
        !authorized ==> r.status == 401 && !r.ok && r.repos@.len() == 0,
        authorized ==> r.status == 200 && r.ok && in_order(text::texts(r.repos@)) && text::texts(
            r.repos@,
        ).to_multiset() == text::texts(names@).to_multiset(),
{
    let mut out: Vec<String> = Vec::new();
    if !authorized {
        return ListReply { status: 401, ok: false, repos: out };
    }
    let ghost all = text::texts(names@);
    let mut i: usize = 0;
    assert(text::texts(out@) =~= all.take(0));
    while i < names.len()
        invariant
            i <= names@.len(),
            all == text::texts(names@),
            in_order(text::texts(out@)),
            text::texts(out@).to_multiset() == all.take(i as int).to_multiset(),
        decreases names@.len() - i,
    {
        proof {
            assert(all.take(i + 1) =~= all.take(i as int).push(all[i as int]));
            vstd::seq_lib::to_multiset_build(all.take(i as int), all[i as int]);
        }
        place_name(&mut out, names[i].clone());
        i = i + 1;
    }
    assert(all.take(i as int) =~= all);
    ListReply { status: 200, ok: true, repos: out }
}

/// What a server answers to a pull.
pub struct PullReply {
    pub status: u16,
    pub ok: bool,
    pub bundle: RemoteBundle,
}

/// Whether a pull is turned down, and with which status: who asks is not allowed, or the name is
/// no good.
pub open spec fn pull_refused(authorized: bool, repo: Seq<char>) -> Option<u16> {
    if !authorized {
        Some(401)
    } else if !good_name(repo) {
        Some(400)
    } else {
        None
    }
}

/// Whether a pull is turned down, and with which status.
pub fn pull_refusal(authorized: bool, repo: &str) -> (r: Option<u16>)
    ensures
        r == pull_refused(authorized, repo@),
{
    if !authorized {
        Some(401)
    } else if !repo_name_ok(repo) {
        Some(400)
    } else {
        None
    }
}

/// The answer to a pull: that it is turned down, else the bundle, or an empty one where there
/// is none to be had.
pub fn pull_repo(refusal: Option<u16>, bundle: Option<RemoteBundle>) -> (r: PullReply)
    ensures
        match refusal {
            Some(status) => r.status == status && !r.ok && r.bundle@ == model::BundleView::blank(),
            None => r.status == 200 && r.ok && r.bundle@ == (match bundle {
                Some(b) => b@,
                None => model::BundleView::blank(),
            }),
        },
{
    match refusal {
        Some(status) => PullReply { status, ok: false, bundle: RemoteBundle::blank() },
        None => PullReply {
            status: 200,
            ok: true,
            bundle: match bundle {
                Some(b) => b,
                None => RemoteBundle::blank(),
            },
        },
    }
}

/// Whether a push is turned down, and with which status: who asks is not allowed, the request
/// speaks of another repository, or the name is no good.
pub open spec fn push_refused(authorized: bool, repo: Seq<char>, asked: Seq<char>) -> Option<u16> {
    if !authorized {
        Some(401)
    } else if asked != repo || !good_name(repo) {
        Some(400)
    } else {
        None
    }
}

/// Whether a push is turned down, and with which status.
pub fn push_refusal(authorized: bool, repo: &str, asked: &str) -> (r: Option<u16>)
    ensures
        r == push_refused(authorized, repo@, asked@),
{
    if !authorized {
        Some(401)
    } else if !text::str_eq(asked, repo) || !repo_name_ok(repo) {
        Some(400)
    } else {
        None
    }
}

/// The status of an order that was carried out or failed.
pub fn done_status(done: bool) -> (r: u16)
    ensures
        r == (if done {
            200u16
        } else {
            500u16
        }),
{
    if done {
        200
    } else {
        500
    }
}

// ---------------------------------------------------------------------------------------
// Objects
// ---------------------------------------------------------------------------------------
/// Whether a request for an object is turned down, and with which status: who asks is not
/// allowed, the name of the object is too short, or that of the repository is no good.
pub open spec fn object_refused(authorized: bool, repo: Seq<char>, hash: Seq<char>) -> Option<u16> {
    if !authorized {
        Some(401)
    } else if bytes::utf8(hash).len() < 2 || !good_name(repo) {
        Some(400)
    } else {
        None
    }
}

/// Whether a request for an object is turned down, and with which status.
pub fn object_refusal(authorized: bool, repo: &str, hash: &str) -> (r: Option<u16>)
    ensures
        r == object_refused(authorized, repo@, hash@),
{
    if !authorized {
        Some(401)
    } else if !names_object(hash) || !repo_name_ok(repo) {
        Some(400)
    } else {
        None
    }
}

/// What was found of an object.
pub enum Found {
    Missing,
    Unreadable,
    Bytes(Vec<u8>),
}

/// What a server answers to who asks for an object.
pub struct ObjectReply {
    pub status: u16,
    pub ok: bool,
    pub bytes_b64: String,
}

/// The answer to a request for an object.
pub fn get_obj(refusal: Option<u16>, found: Found) -> (r: ObjectReply)
    ensures
        match refusal {
            Some(status) => r.status == status && !r.ok && r.bytes_b64@.len() == 0,
            None => match found {
                Found::Missing => r.status == 404 && !r.ok && r.bytes_b64@.len() == 0,
                Found::Unreadable => r.status == 500 && !r.ok && r.bytes_b64@.len() == 0,
                Found::Bytes(b) => r.status == 200 && r.ok && r.bytes_b64@ == encoding::standard64(b@),
            },
        },
{
    match refusal {
        Some(status) => ObjectReply { status, ok: false, bytes_b64: String::new() },
        None => match found {
            Found::Missing => ObjectReply { status: 404, ok: false, bytes_b64: String::new() },
            Found::Unreadable => ObjectReply { status: 500, ok: false, bytes_b64: String::new() },
            Found::Bytes(b) => ObjectReply { status: 200, ok: true, bytes_b64: encode_base64(b.as_slice()) },
        },
    }
}

/// What is to be done with an object that is brought.
pub enum PutStep {
    /// Nothing more; the status is this.
    Reply(u16),
    /// These bytes are to be written.
    Write(Vec<u8>),
}

/// What is to be done with an object that is brought: nothing where the request is turned down
/// or the object is there; else its bytes are written, where the text encodes any.
pub fn put_obj(refusal: Option<u16>, exists_already: bool, bytes_b64: &str) -> (r: PutStep)
    ensures
        match refusal {
            Some(status) => r == PutStep::Reply(status),
            None => if exists_already {
                r == PutStep::Reply(200)
            } else {
                match r {
                    PutStep::Write(b) => encoding::standard64(b@) == bytes_b64@,
                    PutStep::Reply(status) => status == 400 && forall|b: Seq<u8>| #[trigger]
                        encoding::standard64(b) != bytes_b64@,
                }
            },
        },
{
    match refusal {
        Some(status) => {
            return PutStep::Reply(status);
        },
        None => {},
    }
    if exists_already {
        return PutStep::Reply(200);
    }
    match decode_base64(bytes_b64) {
        Some(b) => PutStep::Write(b),
        None => PutStep::Reply(400),
    }
}

// ---------------------------------------------------------------------------------------
// Addresses
// ---------------------------------------------------------------------------------------
/// Decimal digits alone.
pub open spec fn all_digits(s: Seq<char>) -> bool {
    forall|i: int| 0 <= i < s.len() ==> '0' <= #[trigger] s[i] <= '9'
}

/// The address to listen on: a port alone, with or without a colon before it, is one of every
/// interface.
pub open spec fn bind_addr(input: Seq<char>) -> Seq<char> {
    let s = text::trimmed(input);
    if all_digits(s) {
        "0.0.0.0:"@ + s
    } else if s[0] == ':' && all_digits(s.skip(1)) {
        "0.0.0.0"@ + s
    } else {
        s
    }
}

fn digits_from(v: &Vec<char>, from: usize) -> (r: bool)
    requires
        from <= v@.len(),
    ensures
        r == all_digits(v@.skip(from as int)),
{
    let mut i: usize = from;
    while i < v.len()
        invariant
            from <= i <= v@.len(),
            forall|k: int| from <= k < i ==> '0' <= #[trigger] v@[k] <= '9',
        decreases v@.len() - i,
    {
        if !('0' <= v[i] && v[i] <= '9') {
            assert(v@.skip(from as int)[i - from] == v@[i as int]);
            return false;
        }
        i = i + 1;
    }
    assert forall|k: int| 0 <= k < v@.skip(from as int).len() implies '0' <= #[trigger] v@.skip(from as int)[k] <= '9' by {
        assert(v@.skip(from as int)[k] == v@[k + from]);
    }
    true
}

/// The address to listen on.
pub fn normalize_bind_addr(input: &str) -> (r: String)
    ensures
        r@ == bind_addr(input@),
{
    let s = text::trim(input);
    let v = text::chars_of(s.as_str());
    assert(v@.skip(0) =~= s@);
    if digits_from(&v, 0) {
        return text::concat("0.0.0.0:", s.as_str());
    }
    if v.len() > 0 && v[0] == ':' && digits_from(&v, 1) {
        return text::concat("0.0.0.0", s.as_str());
    }
    s
}

/// The address to listen on: what `POP_ADDR` says, else the port that `PORT` says where it says
/// anything, else what was asked for.
pub open spec fn chosen_addr(pop_addr: Option<Seq<char>>, port: Option<Seq<char>>, asked: Seq<char>) -> Seq<char> {
    match pop_addr {
        Some(a) => bind_addr(a),
        None => match port {
            Some(p) => if text::trimmed(p).len() > 0 {
                bind_addr(text::trimmed(p))
            } else {
                bind_addr(asked)
            },
            None => bind_addr(asked),
        },
    }
}

/// The address to listen on, from what the environment says and what was asked for.
pub fn serve_addr(pop_addr: &Option<String>, port: &Option<String>, asked: &str) -> (r: String)
    ensures
        r@ == chosen_addr(model::opt_text(*pop_addr), model::opt_text(*port), asked@),
{
    match pop_addr {
        Some(a) => {
            return normalize_bind_addr(a.as_str());
        },
        None => {},
    }
    match port {
        Some(p) => {
            let q = text::trim(p.as_str());
            if !q.as_str().is_empty() {
                return normalize_bind_addr(q.as_str());
            }
        },
        None => {},
    }
    normalize_bind_addr(asked)
}

// ---------------------------------------------------------------------------------------
// Rate limits
// ---------------------------------------------------------------------------------------
/// A minute, in nanoseconds.
pub const MINUTE: u128 = 60000000000;

/// How often someone has been served since a moment, in nanoseconds.
#[derive(Clone, Copy, Debug, PartialEq, Eq, Structural)]
pub struct Rate {
    pub since: u128,
    pub count: u32,
}

impl View for Rate {
    type V = Rate;

    open spec fn view(&self) -> Rate {
        *self
    }
}

/// How often each has been served.
pub type Limiter = StrMap<Rate>;

/// What a `Limiter` says.
pub type LimiterView = Map<Seq<char>, Rate>;

/// The count began less than a minute before `now`.
pub open spec fn is_recent(r: Rate, now: u128) -> bool {
    now < r.since + MINUTE
}

/// The counts that began less than a minute before `now`.
pub open spec fn recent(m: LimiterView, now: u128) -> LimiterView {
    m.restrict(m.dom().filter(|k: Seq<char>| is_recent(m[k], now)))
}

/// The count of `key`: the one that runs, or a new one.
pub open spec fn count_of(m: LimiterView, key: Seq<char>, now: u128) -> Rate {
    if recent(m, now).contains_key(key) {
        m[key]
    } else {
        Rate { since: now, count: 0 }
    }
}

fn keep_recent(m: &mut Limiter, now: u128)
    ensures
        final(m)@ == recent(old(m)@, now),
{
    let mut out: Limiter = StrMap::new();
    let ghost start = m@;
    let n = m.len();
    let ghost ks = m.keys();
    let mut i: usize = 0;
    while i < n
        invariant
            i <= n == ks.len(),
            ks == m.keys(),
            start == m@,
            crate::strmap::lists(ks, start.dom()),
            forall|k: Seq<char>|
                #[trigger] out@.contains_key(k) <==> ks.take(i as int).contains(k) && is_recent(start[k], now),
            forall|k: Seq<char>| #[trigger] out@.contains_key(k) ==> out@[k] == start[k],
        decreases n - i,
    {
        let ghost before = out@;
        let ghost seen = ks.take(i as int);
        let r: Rate = *m.value(i);
        if now < r.since || now - r.since < MINUTE {
            out.insert(m.key(i).clone(), r);
        }
        proof {
            assert(ks.take(i + 1) =~= seen.push(ks[i as int]));
            assert forall|k: Seq<char>|
                #[trigger] out@.contains_key(k) <==> ks.take(i + 1).contains(k) && is_recent(start[k], now) by {
                crate::strmap::lemma_push_contains(seen, ks[i as int], k);
                assert(before.contains_key(k) <==> seen.contains(k) && is_recent(start[k], now));
            }
        }
        i = i + 1;
    }
    proof {
        assert(ks.take(i as int) =~= ks);
        let want = recent(start, now);
        assert forall|k: Seq<char>| #[trigger] out@.contains_key(k) <==> want.contains_key(k) by {
            assert(start.dom().contains(k) <==> ks.contains(k));
        }
        assert(out@.dom() =~= want.dom());
        assert(out@ =~= want);
    }
    *m = out;
}

/// Whether `key` is served at `now`: not more than `max_per_minute` times since its count began.
/// Counts that began a minute ago or earlier are dropped.
pub fn check_rate_limit(m: &mut Limiter, key: &str, now: u128, max_per_minute: u32) -> (r: bool)
    ensures
        r == (count_of(old(m)@, key@, now).count < max_per_minute),
        final(m)@ == recent(old(m)@, now).insert(
            key@,
            (Rate {
                since: count_of(old(m)@, key@, now).since,
                count: if r {
                    (count_of(old(m)@, key@, now).count + 1) as u32
                } else {
                    count_of(old(m)@, key@, now).count
                },
            }),
        ),
{
    keep_recent(m, now);
    let rate: Rate = match m.get(key) {
        Some(x) => *x,
        None => Rate { since: now, count: 0 },
    };
    let served = rate.count < max_per_minute;
    let count: u32 = if served {
        rate.count + 1
    } else {
        rate.count
    };
    m.insert(String::from_str(key), Rate { since: rate.since, count });
    served
}

// ---------------------------------------------------------------------------------------
// Laws
// ---------------------------------------------------------------------------------------
/// Who is not allowed is answered the same whatever is asked for, and learns nothing.
pub proof fn law_strangers_learn_nothing(repo: Seq<char>, asked: Seq<char>, hash: Seq<char>)
    ensures
        pull_refused(false, repo) == Some(401u16),
        push_refused(false, repo, asked) == Some(401u16),
        object_refused(false, repo, hash) == Some(401u16),
{
}

/// No request gets to a repository under a name that leads elsewhere.
pub proof fn law_only_good_names_are_served(authorized: bool, repo: Seq<char>, asked: Seq<char>, hash: Seq<char>)
    requires
        !good_name(repo),
    ensures
        pull_refused(authorized, repo) is Some,
        push_refused(authorized, repo, asked) is Some,
        object_refused(authorized, repo, hash) is Some,
{
}

/// An object that is fetched from one server and brought to another is the same there.
pub proof fn law_objects_travel_unchanged(sent: Seq<u8>, written: Seq<u8>)
    requires
        encoding::standard64(written) == encoding::standard64(sent),
    ensures
        written == sent,
{
    encoding::law_base64_round_trip(written, sent);
}

/// Whoever is refused stays refused until the count runs out: another request at a later moment
/// of the same minute is refused too.
pub proof fn law_refusal_lasts(m: LimiterView, key: Seq<char>, now: u128, later: u128, max: u32)
    requires
        count_of(m, key, now).count >= max,
        now <= later < count_of(m, key, now).since + MINUTE,
    ensures
        count_of(recent(m, now).insert(key, count_of(m, key, now)), key, later).count >= max,
{
    let n = recent(m, now).insert(key, count_of(m, key, now));
    assert(n[key] == count_of(m, key, now));
    assert(recent(n, later).contains_key(key));
}

/// A repository may have any name without slashes of either kind and without two dots side by
/// side, and no other.
pub proof fn law_good_names_exactly(repo: Seq<char>)
    ensures
        good_name(repo) <==> (forall|i: int| 0 <= i < repo.len() ==> #[trigger] repo[i] != '/' && repo[i] != '\\')
            && (forall|i: int| 0 <= i < repo.len() - 1 ==> !(#[trigger] repo[i] == '.' && repo[i + 1] == '.')),
{
    if good_name(repo) {
        assert forall|i: int| 0 <= i < repo.len() implies #[trigger] repo[i] != '/' && repo[i] != '\\' by {
            assert(repo.contains(repo[i]));
        }
    }
}

/// Who is allowed and asks for a repository by a good name is served; a bad name, a push for
/// another repository and a name of an object of less than two bytes are bad requests.
pub proof fn law_who_is_allowed_is_served(repo: Seq<char>, asked: Seq<char>, hash: Seq<char>)
    ensures
        good_name(repo) ==> pull_refused(true, repo) is None,
        !good_name(repo) ==> pull_refused(true, repo) == Some(400u16),
        good_name(repo) && asked == repo ==> push_refused(true, repo, asked) is None,
        !good_name(repo) || asked != repo ==> push_refused(true, repo, asked) == Some(400u16),
        good_name(repo) && vstd::utf8::encode_utf8(hash).len() >= 2 ==> object_refused(true, repo, hash) is None,
        !good_name(repo) || vstd::utf8::encode_utf8(hash).len() < 2 ==> object_refused(true, repo, hash) == Some(400u16),
{
}

/// A port alone is one of every interface, with or without a colon before it; any other address
/// is as it is, without white space around it.
pub proof fn law_addresses_to_listen_on(port: Seq<char>, addr: Seq<char>)
    requires
        port.len() > 0,
        forall|i: int| 0 <= i < port.len() ==> '0' <= #[trigger] port[i] <= '9',
        addr.len() > 1,
        !text::is_space(addr[0]),
        !text::is_space(addr.last()),
        addr[0] != ':',
        !('0' <= addr.last() <= '9' && '0' <= addr[0] <= '9' && all_digits(addr)),
    ensures
        bind_addr(port) == "0.0.0.0:"@ + port,
        bind_addr(":"@ + port) == "0.0.0.0:"@ + port,
        bind_addr(addr) == addr,
{
    reveal_strlit(":");
    reveal_strlit("0.0.0.0");
    reveal_strlit("0.0.0.0:");
    lemma_trim_plain(port);
    lemma_trim_plain(addr);
    let c = ":"@ + port;
    assert(c[0] == ':' && c.last() == port.last());
    lemma_trim_plain(c);
    assert(c.skip(1) =~= port);
    assert("0.0.0.0"@ + c =~= "0.0.0.0:"@ + port);
    if all_digits(addr) {
        assert('0' <= addr[0] <= '9');
        assert('0' <= addr[addr.len() - 1] <= '9');
    }
    assert(!all_digits(c)) by {
        assert(c[0] == ':');
    }
}

proof fn lemma_trim_plain(s: Seq<char>)
    requires
        s.len() > 0,
        !text::is_space(s[0]),
        !text::is_space(s.last()),
    ensures
        text::trimmed(s) == s,
{
    let (i, j) = text::law_trimming_takes_white_space(s);
    assert(i == 0) by {
        if i > 0 {
            assert(text::is_space(s[0]));
        }
    }
    assert(j == s.len()) by {
        if j < s.len() {
            assert(text::is_space(s[s.len() - 1]));
        }
    }
    assert(s.subrange(0, s.len() as int) =~= s);
}

/// What `POP_ADDR` says comes first, then what `PORT` says where it is not blank, then what was
/// asked for.
pub proof fn law_environment_comes_first(a: Seq<char>, p: Seq<char>, asked: Seq<char>, other: Option<Seq<char>>)
    ensures
        chosen_addr(Some(a), other, asked) == bind_addr(a),
        text::trimmed(p).len() > 0 ==> chosen_addr(None, Some(p), asked) == bind_addr(text::trimmed(p)),
        text::trimmed(p).len() == 0 ==> chosen_addr(None, Some(p), asked) == bind_addr(asked),
        chosen_addr(None, None, asked) == bind_addr(asked),
{
}

/// A count runs for a minute from its first request, and a new one begins after that, or where
/// there was none.
pub proof fn law_counts_run_for_a_minute(m: LimiterView, key: Seq<char>, now: u128)
    ensures
        m.contains_key(key) && now - m[key].since < 60000000000 ==> count_of(m, key, now) == m[key] && recent(
            m,
            now,
        ).contains_pair(key, m[key]),
        !m.contains_key(key) || now - m[key].since >= 60000000000 ==> count_of(m, key, now).since == now && count_of(
            m,
            key,
            now,
        ).count == 0 && !recent(m, now).contains_key(key),
{
}

/// A list in order has no text before one that comes before it.
pub proof fn law_lists_in_order(s: Seq<Seq<char>>, i: int, j: int)
    requires
        in_order(s),
        0 <= i < j < s.len(),
    ensures
        s[i] == s[j] || text::lex_lt(s[i], s[j]),
{
    if s[i] != s[j] {
        text::lemma_lex_total(s[i], s[j]);
    }
}

/// The address to listen on, for any input: what it is without the white space around it decides.
pub proof fn law_address_for_any_input(s: Seq<char>)
    ensures
        ({
            let t = text::trimmed(s);
            &&& (forall|i: int| 0 <= i < t.len() ==> '0' <= #[trigger] t[i] <= '9') ==> bind_addr(s) == "0.0.0.0:"@ + t
            &&& t.len() > 0 && t[0] == ':' && (forall|i: int| 1 <= i < t.len() ==> '0' <= #[trigger] t[i] <= '9')
                ==> bind_addr(s) == "0.0.0.0"@ + t
            &&& t.len() > 0 && t[0] != ':' && (exists|i: int| 0 <= i < t.len() && !('0' <= #[trigger] t[i] <= '9'))
                ==> bind_addr(s) == t
            &&& t.len() > 0 && t[0] == ':' && (exists|i: int| 1 <= i < t.len() && !('0' <= #[trigger] t[i] <= '9'))
                ==> bind_addr(s) == t
        }),
{
    let t = text::trimmed(s);
    if t.len() > 0 && t[0] == ':' {
        assert(!all_digits(t));
        let u = t.skip(1);
        if forall|i: int| 1 <= i < t.len() ==> '0' <= #[trigger] t[i] <= '9' {
            assert forall|i: int| 0 <= i < u.len() implies '0' <= #[trigger] u[i] <= '9' by {
                assert(u[i] == t[i + 1]);
            }
        }
        if exists|i: int| 1 <= i < t.len() && !('0' <= #[trigger] t[i] <= '9') {
            let i = choose|i: int| 1 <= i < t.len() && !('0' <= #[trigger] t[i] <= '9');
            assert(u[i - 1] == t[i]);
            assert(!all_digits(u));
        }
    }
}

} // verus!

//! Remote repositories: where they are, what is asked of them, and in which words.

use vstd::prelude::*;
use vstd::string::*;

use crate::bytes;
use crate::encoding;
use crate::encoding::{decode_base64, encode_base64};
use crate::model;
use crate::model::copy_opt;
use crate::objects;
use crate::objects::shard;
use crate::text;

verus! {

// ---------------------------------------------------------------------------------------
// Where
// ---------------------------------------------------------------------------------------
/// A remote repository.
#[derive(Clone, Debug, PartialEq, Eq)]
pub enum RemoteSpec {
    Http { base: String, repo: String, token: Option<String> },
    Ssh { user_host: String, root: String, repo: String },
}

/// What a `RemoteSpec` says.
pub enum RemoteView {
    Http { base: Seq<char>, repo: Seq<char>, token: Option<Seq<char>> },
    Ssh { user_host: Seq<char>, root: Seq<char>, repo: Seq<char> },
}

impl View for RemoteSpec {
    type V = RemoteView;

    open spec fn view(&self) -> RemoteView {
        match self {
            RemoteSpec::Http { base, repo, token } => RemoteView::Http {
                base: base@,
                repo: repo@,
                token: model::opt_text(*token),
            },
            RemoteSpec::Ssh { user_host, root, repo } => RemoteView::Ssh {
                user_host: user_host@,
                root: root@,
                repo: repo@,
            },
        }
    }
}

/// Why an address names no remote repository.
#[derive(Clone, Debug, PartialEq, Eq)]
pub enum RemoteError {
    /// An address for ssh names no directory.
    NoRoot,
    /// The directory is not given from the root on.
    RelativeRoot { root: String },
}

/// What a `RemoteError` says.
pub enum RemoteErrorView {
    NoRoot,
    RelativeRoot { root: Seq<char> },
}

/// What the outcome of reading an address says.
pub open spec fn outcome(r: Result<RemoteSpec, RemoteError>) -> Result<RemoteView, RemoteErrorView> {
    match r {
        Ok(spec) => Ok(spec@),
        Err(RemoteError::NoRoot) => Err(RemoteErrorView::NoRoot),
        Err(RemoteError::RelativeRoot { root }) => Err(RemoteErrorView::RelativeRoot { root: root@ }),
    }
}

/// The directory with one slash at its front, where it has two or more.
pub open spec fn one_slash(root: Seq<char>) -> Seq<char> {
    if text::has_prefix(root, "//"@) {
        "/"@ + text::strip_front(root, "/"@)
    } else {
        root
    }
}

/// The remote repository that an address names. An address that begins with `ssh://` gives the
/// user and host and, behind the first colon, the directory, for which `ssh_root` may stand in.
/// Any other is the address of a server.
pub open spec fn remote_at(
    url: Seq<char>,
    repo: Seq<char>,
    token: Option<Seq<char>>,
    ssh_root: Option<Seq<char>>,
) -> Result<RemoteView, RemoteErrorView> {
    if text::has_prefix(url, "ssh://"@) {
        let rest = text::strip_front(url, "ssh://"@);
        let colon = text::find(rest, ':');
        if colon == rest.len() {
            Err(RemoteErrorView::NoRoot)
        } else {
            let root = match ssh_root {
                Some(r) => r,
                None => one_slash(rest.skip(colon + 1)),
            };
            if root.len() == 0 || root[0] != '/' {
                Err(RemoteErrorView::RelativeRoot { root })
            } else {
                Ok(RemoteView::Ssh { user_host: rest.take(colon), root, repo })
            }
        }
    } else {
        Ok(RemoteView::Http { base: text::strip_back(url, "/"@), repo, token })
    }
}

proof fn lemma_slash_prefix(s: Seq<char>)
    ensures
        text::has_prefix(s, "/"@) <==> s.len() > 0 && s[0] == '/',
{
    reveal_strlit("/");
    if s.len() > 0 {
        assert(s.take(1) =~= seq![s[0]]);
        assert("/"@ =~= seq!['/']);
        if s[0] != '/' {
            assert(seq![s[0]][0] != seq!['/'][0]);
        }
    }
}

/// The remote repository that an address names.
pub fn parse_remote(url: &str, repo: &str, token: &Option<String>, ssh_root: &Option<String>) -> (r: Result<
    RemoteSpec,
    RemoteError,
>)
    ensures
        outcome(r) == remote_at(url@, repo@, model::opt_text(*token), model::opt_text(*ssh_root)),
{
    if text::starts_with(url, "ssh://") {
        let rest = text::trim_start_matches(url, "ssh://");
        let v = text::chars_of(rest.as_str());
        let colon = text::position(&v, ':');
        if colon == v.len() {
            return Err(RemoteError::NoRoot);
        }
        let user_host = text::text_of(&v, 0, colon);
        let given = text::text_of(&v, colon + 1, v.len());
        proof {
            assert(v@.subrange(0, colon as int) =~= rest@.take(colon as int));
            assert(v@.subrange(colon + 1, v@.len() as int) =~= rest@.skip(colon + 1));
        }
        let root = match ssh_root {
            Some(r) => r.clone(),
            None => {
                if text::starts_with(given.as_str(), "//") {
                    text::concat("/", text::trim_start_matches(given.as_str(), "/").as_str())
                } else {
                    given
                }
            },
        };
        proof {
            lemma_slash_prefix(root@);
        }
        if !text::starts_with(root.as_str(), "/") {
            return Err(RemoteError::RelativeRoot { root });
        }
        Ok(RemoteSpec::Ssh { user_host, root, repo: String::from_str(repo) })
    } else {
        Ok(
            RemoteSpec::Http {
                base: text::trim_end_matches(url, "/"),
                repo: String::from_str(repo),
                token: copy_opt(token),
            },
        )
    }
}

// ---------------------------------------------------------------------------------------
// Addresses
// ---------------------------------------------------------------------------------------
/// The address of the repository on a server.
pub open spec fn repo_url(base: Seq<char>, repo: Seq<char>) -> Seq<char> {
    text::strip_back(base, "/"@) + "/r/"@ + repo
}

fn repo_url_text(base: &str, repo: &str) -> (r: String)
    ensures
        r@ == repo_url(base@, repo@),
{
    let trimmed = text::trim_end_matches(base, "/");
    let mut s = text::concat(trimmed.as_str(), "/r/");
    s.append(repo);
    s
}

/// Where a repository is pulled from.
pub fn pull_url(base: &str, repo: &str) -> (r: String)
    ensures
        r@ == repo_url(base@, repo@) + "/pull"@,
{
    text::concat(repo_url_text(base, repo).as_str(), "/pull")
}

/// Where a repository is pushed to.
pub fn push_url(base: &str, repo: &str) -> (r: String)
    ensures
        r@ == repo_url(base@, repo@) + "/push"@,
{
    text::concat(repo_url_text(base, repo).as_str(), "/push")
}

/// Where the object `hash` is had from and brought to.
pub fn object_url(base: &str, repo: &str, hash: &str) -> (r: String)
    ensures
        r@ == repo_url(base@, repo@) + "/obj/"@ + hash@,
{
    let mut s = repo_url_text(base, repo);
    s.append("/obj/");
    s.append(hash);
    s
}

/// The header that brings the token.
pub fn auth_header(token: &str) -> (r: String)
    ensures
        r@ == "authorization: Bearer "@ + token@,
{
    text::concat("authorization: Bearer ", token)
}

/// The directory of a repository at the other end of ssh.
pub open spec fn remote_dir(root: Seq<char>, repo: Seq<char>) -> Seq<char> {
    text::strip_back(root, "/"@) + "/"@ + repo + "/"@ + model::POP_DIR@
}

/// The directory of a repository at the other end of ssh.
pub fn remote_repo_dir(root: &str, repo: &str) -> (r: String)
    ensures
        r@ == remote_dir(root@, repo@),
{
    let mut s = text::trim_end_matches(root, "/");
    s.append("/");
    s.append(repo);
    s.append("/");
    s.append(model::POP_DIR);
    s
}

/// The path of an object at the other end of ssh. `first` is the name of the directory that
/// holds it.
pub open spec fn ssh_object(dir: Seq<char>, first: Seq<char>, hash: Seq<char>) -> Seq<char> {
    dir + "/objects/"@ + first + "/"@ + hash
}

/// `path` is that of the object `hash` at the other end of ssh.
pub open spec fn holds_object(path: Seq<char>, dir: Seq<char>, hash: Seq<char>) -> bool {
    exists|first: Seq<char>|
        bytes::utf8(first) == objects::shard_bytes(hash) && path == #[trigger] ssh_object(dir, first, hash)
}

/// The path of the object `hash` in the repository `dir` at the other end of ssh.
pub fn remote_object_path(dir: &str, hash: &str) -> (r: String)
    requires
        bytes::utf8(hash@).len() >= 2,
        objects::can_shard(hash@),
    ensures
        holds_object(r@, dir@, hash@),
{
    let mut s = text::concat(dir, "/objects/");
    let first = shard(hash);
    s.append(first.as_str());
    s.append("/");
    s.append(hash);
    assert(s@ == ssh_object(dir@, first@, hash@));
    s
}

// ---------------------------------------------------------------------------------------
// Words for a shell
// ---------------------------------------------------------------------------------------
/// A character inside single quotes: a quote ends them, stands in double quotes, and begins
/// them anew.
pub open spec fn escaped(c: char) -> Seq<char> {
    if c == '\'' {
        seq!['\'', '"', '\'', '"', '\'']
    } else {
        seq![c]
    }
}

/// A text inside single quotes.
pub open spec fn quoted_body(s: Seq<char>) -> Seq<char>
    decreases s.len(),
{
    if s.len() == 0 {
        Seq::empty()
    } else {
        quoted_body(s.drop_last()) + escaped(s.last())
    }
}

/// A text as one word for a shell.
pub open spec fn quoted(s: Seq<char>) -> Seq<char> {
    seq!['\''] + quoted_body(s) + seq!['\'']
}

/// A text as one word for a shell.
pub fn sh_quote(s: &str) -> (r: String)
    ensures
        r@ == quoted(s@),
{
    let v = text::chars_of(s);
    let mut out = String::new();
    out.push('\'');
    let mut i: usize = 0;
    assert(out@ =~= seq!['\''] + quoted_body(s@.take(0)));
    while i < v.len()
        invariant
            i <= v@.len(),
            v@ == s@,
            out@ == seq!['\''] + quoted_body(s@.take(i as int)),
        decreases v@.len() - i,
    {
        let ghost before = out@;
        let c = v[i];
        if c == '\'' {
            out.push('\'');
            out.push('"');
            out.push('\'');
            out.push('"');
            out.push('\'');
        } else {
            out.push(c);
        }
        proof {
            assert(s@.take(i + 1).drop_last() =~= s@.take(i as int));
            assert(s@.take(i + 1).last() == c);
            assert(out@ =~= before + escaped(c));
            assert(out@ =~= seq!['\''] + quoted_body(s@.take(i + 1)));
        }
        i = i + 1;
    }
    out.push('\'');
    proof {
        assert(s@.take(i as int) =~= s@);
        assert(out@ =~= quoted(s@));
    }
    out
}

/// How a shell stands in the middle of a word.
pub enum Quotes {
    Outside,
    Single,
    Double,
}

/// What a shell makes of a word that is all in quotes, read from the middle of it on; `None`
/// for any other word.
pub open spec fn shell_word(s: Seq<char>, q: Quotes) -> Option<Seq<char>>
    decreases s.len(),
{
    if s.len() == 0 {
        if q is Outside {
            Some(Seq::empty())
        } else {
            None
        }
    } else {
        let rest = s.drop_first();
        match q {
            Quotes::Outside => if s[0] == '\'' {
                shell_word(rest, Quotes::Single)
            } else if s[0] == '"' {
                shell_word(rest, Quotes::Double)
            } else {
                None
            },
            Quotes::Single => if s[0] == '\'' {
                shell_word(rest, Quotes::Outside)
            } else {
                opt_prepend(s[0], shell_word(rest, Quotes::Single))
            },
            Quotes::Double => if s[0] == '"' {
                shell_word(rest, Quotes::Outside)
            } else {
                opt_prepend(s[0], shell_word(rest, Quotes::Double))
            },
        }
    }
}

/// `c` before a text, where there is one.
pub open spec fn opt_prepend(c: char, s: Option<Seq<char>>) -> Option<Seq<char>> {
    match s {
        Some(t) => Some(seq![c] + t),
        None => None,
    }
}

proof fn lemma_escaped_read(c: char, tail: Seq<char>)
    ensures
        shell_word(escaped(c) + tail, Quotes::Single) == opt_prepend(c, shell_word(tail, Quotes::Single)),
{
    let s = escaped(c) + tail;
    if c == '\'' {
        let s1 = s.drop_first();
        let s2 = s1.drop_first();
        let s3 = s2.drop_first();
        let s4 = s3.drop_first();
        let s5 = s4.drop_first();
        assert(s5 =~= tail);
        assert(s[0] == '\'' && s1[0] == '"' && s2[0] == '\'' && s3[0] == '"' && s4[0] == '\'');
        assert(shell_word(s4, Quotes::Outside) == shell_word(s5, Quotes::Single));
        assert(shell_word(s3, Quotes::Double) == shell_word(s4, Quotes::Outside));
        assert(shell_word(s2, Quotes::Double) == opt_prepend('\'', shell_word(s3, Quotes::Double)));
        assert(shell_word(s1, Quotes::Outside) == shell_word(s2, Quotes::Double));
        assert(shell_word(s, Quotes::Single) == shell_word(s1, Quotes::Outside));
    } else {
        assert(s.drop_first() =~= tail);
        assert(s[0] == c);
    }
}

proof fn lemma_body_read(s: Seq<char>, tail: Seq<char>)
    requires
        shell_word(tail, Quotes::Single) is Some,
    ensures
        shell_word(quoted_body(s) + tail, Quotes::Single) == Some(s + shell_word(tail, Quotes::Single)->0),
    decreases s.len(),
{
    let end = shell_word(tail, Quotes::Single)->0;
    if s.len() == 0 {
        assert(quoted_body(s) + tail =~= tail);
        assert(s + end =~= end);
    } else {
        let f = s.drop_last();
        let c = s.last();
        lemma_escaped_read(c, tail);
        lemma_body_read(f, escaped(c) + tail);
        assert(quoted_body(s) + tail =~= quoted_body(f) + (escaped(c) + tail));
        assert(f + (seq![c] + end) =~= s + end);
    }
}

/// A shell reads a quoted text as that text, whatever it holds.
pub proof fn law_quoting_is_read_back(s: Seq<char>)
    ensures
        shell_word(quoted(s), Quotes::Outside) == Some(s),
{
    let close = seq!['\''];
    let nothing = Seq::<char>::empty();
    assert(close.drop_first() =~= nothing);
    assert(shell_word(nothing, Quotes::Outside) == Some(nothing));
    assert(shell_word(close, Quotes::Single) == shell_word(close.drop_first(), Quotes::Outside));
    lemma_body_read(s, close);
    assert(quoted(s).drop_first() =~= quoted_body(s) + close);
    assert(s + nothing =~= s);
}

// ---------------------------------------------------------------------------------------
// Scripts for the other end of ssh
// ---------------------------------------------------------------------------------------
/// What the script that writes a file begins with.
pub const PUT_1: &'static str = "
set -e
p=";

/// What follows the path in it.
pub const PUT_2: &'static str = "
mkdir -p \"$(dirname \"$p\")\"
python3 - <<'PY' || python - <<'PY'
import base64, os
p = ";

/// What follows the path once more.
pub const PUT_3: &'static str = "
b = base64.b64decode(";

/// What it ends with.
pub const PUT_4: &'static str = ".encode(\"ascii\"))
with open(p, \"wb\") as f:
    f.write(b)
PY
";

/// What the script that reads a file begins with.
pub const GET_1: &'static str = "
set -e
p=";

/// What follows the path in it.
pub const GET_2: &'static str = "
python3 - <<'PY' || python - <<'PY'
import base64, sys
p = ";

/// What it ends with.
pub const GET_3: &'static str = "
with open(p, \"rb\") as f:
    sys.stdout.write(base64.b64encode(f.read()).decode(\"ascii\"))
PY
";

/// What the script that reads a repository begins with.
pub const PULL_1: &'static str = "
set -e
python3 - <<'PY' || python - <<'PY'
import os, json, base64, sys
rp = ";

/// What follows the place of the repository in it.
pub const PULL_2: &'static str = "
def rj(p, default):
    try:
        with open(p, \"r\", encoding=\"utf-8\") as f: return json.load(f)
    except: return default
bundle = {\"commits\": [], \"refs\": {}, \"head\": rj(os.path.join(rp,\"HEAD.json\"),{}), \"config\": rj(os.path.join(rp,\"config.json\"),{}), \"reflog\": rj(os.path.join(rp,\"reflog.json\"),[]), \"seq\": 0}
try:
    with open(os.path.join(rp,\"SEQ\"), \"r\", encoding=\"utf-8\") as f:
        bundle[\"seq\"] = int((f.read().strip() or \"0\"))
except: pass
heads = os.path.join(rp,\"refs\",\"heads\")
if os.path.isdir(heads):
    for name in os.listdir(heads):
        p = os.path.join(heads,name)
        if os.path.isfile(p):
            with open(p,\"r\",encoding=\"utf-8\") as f:
                bundle[\"refs\"][f\"refs/heads/{name}\"] = (f.read().splitlines()[:1] or [\"\"])[0].strip()
cd = os.path.join(rp,\"commits\")
if os.path.isdir(cd):
    for fn in os.listdir(cd):
        if fn.endswith(\".json\"):
            bundle[\"commits\"].append(rj(os.path.join(cd,fn),{}))
data = json.dumps({\"ok\": True, \"bundle\": bundle}, indent=2, ensure_ascii=False).encode(\"utf-8\")
sys.stdout.write(base64.b64encode(data).decode(\"ascii\"))
PY
";

/// What the script that takes in a bundle begins with.
pub const APPLY_1: &'static str = "
set -e
python3 - <<'PY' || python - <<'PY'
import json, os
rp = ";

/// What follows the place of the repository in it.
pub const APPLY_2: &'static str = "
with open(os.path.join(rp, \"bundle.json\"), \"r\", encoding=\"utf-8\") as f:
    b = json.load(f)

def wj(p, v):
    os.makedirs(os.path.dirname(p), exist_ok=True)
    with open(p, \"w\", encoding=\"utf-8\") as f:
        json.dump(v, f, indent=2, ensure_ascii=False)

for c in b.get(\"commits\", []):
    wj(os.path.join(rp, \"commits\", f\"{c['id']}.json\"), c)

for ref, cid in b.get(\"refs\", {}).items():
    p = os.path.join(rp, *ref.split(\"/\"))
    os.makedirs(os.path.dirname(p), exist_ok=True)
    with open(p, \"w\", encoding=\"utf-8\") as f:
        f.write(cid + \"\\n\")

wj(os.path.join(rp, \"HEAD.json\"), b.get(\"head\", {}))
wj(os.path.join(rp, \"config.json\"), b.get(\"config\", {}))
wj(os.path.join(rp, \"reflog.json\"), b.get(\"reflog\", []))

with open(os.path.join(rp, \"SEQ\"), \"w\", encoding=\"utf-8\") as f:
    f.write(str(b.get(\"seq\", 0)) + \"\\n\")
PY
";
/// The script that finds out whether Python is there.
pub const HAS_PYTHON: &'static str = "command -v python3 >/dev/null 2>&1 || command -v python >/dev/null 2>&1";

/// The script that makes the directories of the repository `dir`.
pub fn mkdir_script(dir: &str) -> (r: String)
    ensures
        r@ == "set -e; mkdir -p \""@ + dir@ + "/objects\" \""@ + dir@ + "/commits\" \""@ + dir@ + "/refs/heads\""@,
{
    let mut s = text::concat("set -e; mkdir -p \"", dir);
    s.append("/objects\" \"");
    s.append(dir);
    s.append("/commits\" \"");
    s.append(dir);
    s.append("/refs/heads\"");
    s
}

/// The script that writes `b` to the file at `path`.
pub open spec fn put_script(path: Seq<char>, b: Seq<u8>) -> Seq<char> {
    PUT_1@ + quoted(path) + PUT_2@ + quoted(path) + PUT_3@ + quoted(encoding::standard64(b)) + PUT_4@
}

/// The script that writes `b` to the file at `path`.
pub fn ssh_put_script(path: &str, b: &[u8]) -> (r: String)
    ensures
        r@ == put_script(path@, b@),
{
    let p = sh_quote(path);
    let q = sh_quote(encode_base64(b).as_str());
    let mut s = text::concat(PUT_1, p.as_str());
    s.append(PUT_2);
    s.append(p.as_str());
    s.append(PUT_3);
    s.append(q.as_str());
    s.append(PUT_4);
    s
}

/// The script that reads the file at `path`.
pub fn ssh_get_script(path: &str) -> (r: String)
    ensures
        r@ == GET_1@ + quoted(path@) + GET_2@ + quoted(path@) + GET_3@,
{
    let p = sh_quote(path);
    let mut s = text::concat(GET_1, p.as_str());
    s.append(GET_2);
    s.append(p.as_str());
    s.append(GET_3);
    s
}

/// The script that reads the repository `dir` as a bundle.
pub fn pull_script(dir: &str) -> (r: String)
    ensures
        r@ == PULL_1@ + quoted(dir@) + PULL_2@,
{
    let mut s = text::concat(PULL_1, sh_quote(dir).as_str());
    s.append(PULL_2);
    s
}

/// The script that takes the bundle of the repository in. `place` is the directory of the
/// repository, as it stands in the script.
pub fn build_python_apply_script(place: &str) -> (r: String)
    ensures
        r@ == APPLY_1@ + place@ + APPLY_2@,
{
    let mut s = text::concat(APPLY_1, place);
    s.append(APPLY_2);
    s
}

/// The bytes that a script has printed in the standard base64 encoding, with white space around
/// them; `None` where it has printed anything else.
pub fn printed_bytes(out: &str) -> (r: Option<Vec<u8>>)
    ensures
        match r {
            Some(b) => encoding::standard64(b@) == text::trimmed(out@),
            None => forall|b: Seq<u8>| #[trigger] encoding::standard64(b) != text::trimmed(out@),
        },
{
    decode_base64(text::trim(out).as_str())
}

/// An address that does not begin with `ssh://` is that of a server, without the slashes at its
/// end; the token goes with it.
pub proof fn law_other_addresses_are_servers(
    url: Seq<char>,
    repo: Seq<char>,
    token: Option<Seq<char>>,
    ssh_root: Option<Seq<char>>,
)
    requires
        !text::has_prefix(url, "ssh://"@),
        url.len() > 0,
        url.last() != '/',
        !text::has_prefix(url + "/"@, "ssh://"@),
    ensures
        remote_at(url, repo, token, ssh_root) == Ok::<RemoteView, RemoteErrorView>(
            RemoteView::Http { base: url, repo, token },
        ),
        remote_at(url + "/"@, repo, token, ssh_root) == Ok::<RemoteView, RemoteErrorView>(
            RemoteView::Http { base: url, repo, token },
        ),
{
    reveal_strlit("/");
    text::law_stripping_takes_all(url, "/"@);
    if text::has_suffix(url, "/"@) {
        assert(url.skip(url.len() - 1)[0] == '/');
    }
}

/// An address that begins with `ssh://` gives the user and host up to the first colon, and behind
/// it the directory, for which another may be given. Without a colon it is no address, and a
/// directory has to begin with a slash. No host is named `ssh`, which would read as the beginning.
pub proof fn law_ssh_addresses(
    user_host: Seq<char>,
    root: Seq<char>,
    other: Seq<char>,
    repo: Seq<char>,
    token: Option<Seq<char>>,
)
    requires
        !user_host.contains(':'),
        user_host != "ssh"@,
    ensures
        root.len() > 0 && root[0] == '/' && !(root.len() > 1 && root[1] == '/') ==> remote_at(
            "ssh://"@ + user_host + ":"@ + root,
            repo,
            token,
            None,
        ) == Ok::<RemoteView, RemoteErrorView>(RemoteView::Ssh { user_host, root, repo }),
        root.len() > 0 && root[0] != '/' ==> remote_at("ssh://"@ + user_host + ":"@ + root, repo, token, None) == Err::<
            RemoteView,
            RemoteErrorView,
        >(RemoteErrorView::RelativeRoot { root }),
        other.len() > 0 && other[0] == '/' ==> remote_at(
            "ssh://"@ + user_host + ":"@ + root,
            repo,
            token,
            Some(other),
        ) == Ok::<RemoteView, RemoteErrorView>(RemoteView::Ssh { user_host, root: other, repo }),
        remote_at("ssh://"@ + user_host, repo, token, None) == Err::<RemoteView, RemoteErrorView>(
            RemoteErrorView::NoRoot,
        ),
{
    reveal_strlit("ssh://");
    reveal_strlit(":");
    reveal_strlit("//");
    let pre = "ssh://"@;
    let rest = user_host + ":"@ + root;
    let url = pre + user_host + ":"@ + root;
    assert(url =~= pre + rest);
    assert(rest.take(user_host.len() as int) =~= user_host);
    assert(rest[user_host.len() as int] == ':');
    lemma_no_ssh(user_host, rest);
    lemma_no_ssh(user_host, user_host);
    text::law_prefix_and_rest(url, pre, rest);
    text::law_prefix_and_rest(url, pre, user_host);
    text::law_stripping_takes_all(rest, pre);
    text::law_stripping_takes_all(user_host, pre);
    text::lemma_find(rest, ':');
    text::lemma_find(user_host, ':');
    let k = text::find(rest, ':');
    assert(rest[user_host.len() as int] == ':');
    assert(rest.contains(':'));
    assert(k == user_host.len()) by {
        if k < user_host.len() {
            assert(rest[k] == user_host[k]);
            assert(user_host.contains(':'));
        }
    }
    assert(rest.take(k) =~= user_host);
    assert(rest.skip(k + 1) =~= root);
    if text::has_prefix(root, "//"@) {
        assert(root.take(2)[0] == '/' && root.take(2)[1] == '/');
    }
}

proof fn lemma_no_ssh(user_host: Seq<char>, s: Seq<char>)
    requires
        !user_host.contains(':'),
        s == user_host || (s.len() > user_host.len() && s.take(user_host.len() as int) == user_host
            && s[user_host.len() as int] == ':'),
    ensures
        user_host != "ssh"@ ==> !text::has_prefix(s, "ssh://"@),
{
    reveal_strlit("ssh://");
    reveal_strlit("ssh");
    if text::has_prefix(s, "ssh://"@) && user_host != "ssh"@ {
        let t = s.take(6);
        assert(t[0] == 's' && t[1] == 's' && t[2] == 'h' && t[3] == ':');
        assert(s[3] == ':');
        if user_host.len() > 3 {
            assert(s.take(user_host.len() as int)[3] == user_host[3]);
            assert(user_host.contains(':'));
        } else {
            assert(user_host.len() <= 3);
            if s != user_host {
                assert(s[user_host.len() as int] == ':');
                assert(user_host.len() == 3) by {
                    if user_host.len() < 3 {
                        assert(s[user_host.len() as int] == t[user_host.len() as int]);
                    }
                }
                assert(s.take(3) =~= "ssh"@);
            }
        }
    }
}

/// The address of a repository on a server is that of the server, `/r/` and its name, whether or
/// not the address of the server ends with a slash; and likewise the directory over ssh.
pub proof fn law_places_of_repositories(base: Seq<char>, repo: Seq<char>)
    requires
        base.len() > 0,
        base.last() != '/',
    ensures
        repo_url(base, repo) == base + "/r/"@ + repo,
        repo_url(base + "/"@, repo) == base + "/r/"@ + repo,
        remote_dir(base, repo) == base + "/"@ + repo + "/.pop"@,
        remote_dir(base + "/"@, repo) == base + "/"@ + repo + "/.pop"@,
{
    reveal_strlit("/");
    reveal_strlit(".pop");
    reveal_strlit("/.pop");
    text::law_stripping_takes_all(base, "/"@);
    if text::has_suffix(base, "/"@) {
        assert(base.skip(base.len() - 1)[0] == '/');
    }
    assert("/"@ + ".pop"@ =~= "/.pop"@);
    assert(remote_dir(base, repo) =~= base + "/"@ + repo + "/.pop"@);
}

/// An object stands over ssh where it stands at home: below `objects`, in the directory of the
/// first two bytes of its name.
pub proof fn law_objects_stand_over_ssh(path: Seq<char>, dir: Seq<char>, hash: Seq<char>)
    requires
        holds_object(path, dir, hash),
        vstd::utf8::is_ascii_chars(hash),
        hash.len() >= 2,
    ensures
        path == dir + "/objects/"@ + hash.take(2) + "/"@ + hash,
{
    let first = choose|first: Seq<char>|
        bytes::utf8(first) == objects::shard_bytes(hash) && path == #[trigger] ssh_object(dir, first, hash);
    vstd::utf8::is_ascii_chars_encode_utf8(hash);
    let two = hash.take(2);
    assert(vstd::utf8::is_ascii_chars(two));
    vstd::utf8::is_ascii_chars_encode_utf8(two);
    assert(bytes::utf8(two) =~= bytes::utf8(hash).subrange(0, 2));
    vstd::utf8::encode_utf8_decode_utf8(first);
    vstd::utf8::encode_utf8_decode_utf8(two);
    assert(first == two);
}

/// A text without quotes stands in quotes as it is.
pub proof fn law_plain_texts_are_only_put_in_quotes(s: Seq<char>)
    requires
        !s.contains('\''),
    ensures
        quoted(s) == seq!['\''] + s + seq!['\''],
{
    lemma_plain_body(s);
}

proof fn lemma_plain_body(s: Seq<char>)
    requires
        !s.contains('\''),
    ensures
        quoted_body(s) == s,
    decreases s.len(),
{
    if s.len() == 0 {
        assert(s =~= Seq::<char>::empty());
    } else {
        let f = s.drop_last();
        if f.contains('\'') {
            let k = choose|k: int| 0 <= k < f.len() && f[k] == '\'';
            assert(s[k] == '\'');
        }
        lemma_plain_body(f);
        assert(s[s.len() - 1] == s.last());
        if s.last() == '\'' {
            assert(s.contains('\''));
        }
        assert(f + seq![s.last()] =~= s);
    }
}

/// What the scripts do that are run at the other end: one takes the configuration, HEAD, the
/// reflog, the number, the first line of each branch and all commits of a repository and prints
/// them, the other writes the same of a bundle.
pub proof fn law_scripts_read_and_write_everything()
    ensures
        PULL_1@ == "
set -e
python3 - <<'PY' || python - <<'PY'
import os, json, base64, sys
rp = "@,
        PULL_2@ == "
def rj(p, default):
    try:
        with open(p, \"r\", encoding=\"utf-8\") as f: return json.load(f)
    except: return default
bundle = {\"commits\": [], \"refs\": {}, \"head\": rj(os.path.join(rp,\"HEAD.json\"),{}), \"config\": rj(os.path.join(rp,\"config.json\"),{}), \"reflog\": rj(os.path.join(rp,\"reflog.json\"),[]), \"seq\": 0}
try:
    with open(os.path.join(rp,\"SEQ\"), \"r\", encoding=\"utf-8\") as f:
        bundle[\"seq\"] = int((f.read().strip() or \"0\"))
except: pass
heads = os.path.join(rp,\"refs\",\"heads\")
if os.path.isdir(heads):
    for name in os.listdir(heads):
        p = os.path.join(heads,name)
        if os.path.isfile(p):
            with open(p,\"r\",encoding=\"utf-8\") as f:
                bundle[\"refs\"][f\"refs/heads/{name}\"] = (f.read().splitlines()[:1] or [\"\"])[0].strip()
cd = os.path.join(rp,\"commits\")
if os.path.isdir(cd):
    for fn in os.listdir(cd):
        if fn.endswith(\".json\"):
            bundle[\"commits\"].append(rj(os.path.join(cd,fn),{}))
data = json.dumps({\"ok\": True, \"bundle\": bundle}, indent=2, ensure_ascii=False).encode(\"utf-8\")
sys.stdout.write(base64.b64encode(data).decode(\"ascii\"))
PY
"@,
        APPLY_1@ == "
set -e
python3 - <<'PY' || python - <<'PY'
import json, os
rp = "@,
        APPLY_2@ == "
with open(os.path.join(rp, \"bundle.json\"), \"r\", encoding=\"utf-8\") as f:
    b = json.load(f)

def wj(p, v):
    os.makedirs(os.path.dirname(p), exist_ok=True)
    with open(p, \"w\", encoding=\"utf-8\") as f:
        json.dump(v, f, indent=2, ensure_ascii=False)

for c in b.get(\"commits\", []):
    wj(os.path.join(rp, \"commits\", f\"{c['id']}.json\"), c)

for ref, cid in b.get(\"refs\", {}).items():
    p = os.path.join(rp, *ref.split(\"/\"))
    os.makedirs(os.path.dirname(p), exist_ok=True)
    with open(p, \"w\", encoding=\"utf-8\") as f:
        f.write(cid + \"\\n\")

wj(os.path.join(rp, \"HEAD.json\"), b.get(\"head\", {}))
wj(os.path.join(rp, \"config.json\"), b.get(\"config\", {}))
wj(os.path.join(rp, \"reflog.json\"), b.get(\"reflog\", []))

with open(os.path.join(rp, \"SEQ\"), \"w\", encoding=\"utf-8\") as f:
    f.write(str(b.get(\"seq\", 0)) + \"\\n\")
PY
"@,
{
}

/// More than one slash at the front of a directory is read as one.
pub proof fn law_leading_slashes_are_one(root: Seq<char>)
    requires
        root.len() == 0 || root[0] != '/',
    ensures
        one_slash("//"@ + root) == "/"@ + root,
        one_slash("///"@ + root) == "/"@ + root,
        one_slash("/"@ + root) == "/"@ + root,
        one_slash(root) == root,
{
    reveal_strlit("/");
    reveal_strlit("//");
    reveal_strlit("///");
    let s = "/"@;
    lemma_slash_prefix(root);
    text::law_stripping_takes_all(root, s);
    text::law_stripping_takes_all(s + root, s);
    text::law_stripping_takes_all(s + (s + root), s);
    assert("//"@ + root =~= s + (s + root));
    assert("///"@ + root =~= s + (s + (s + root)));
    text::law_prefix_and_rest(root, "//"@, root);
    text::law_prefix_and_rest(root, "//"@, s + root);
    assert("///"@ + root =~= "//"@ + (s + root));
    let one = s + root;
    if text::has_prefix(one, "//"@) {
        assert(one.take(2)[1] == '/');
        assert(one[1] == root[0]);
    }
    if text::has_prefix(root, "//"@) {
        assert(root.take(2)[0] == '/');
    }
}

/// The script that writes a file names its path twice, quoted, and holds its bytes in base64,
/// quoted, between what decodes and writes them.
pub proof fn law_put_script_writes_the_bytes(path: Seq<char>, b: Seq<u8>)
    ensures
        put_script(path, b) == "\nset -e\np="@ + quoted(path)
            + "\nmkdir -p \"$(dirname \"$p\")\"\npython3 - <<'PY' || python - <<'PY'\nimport base64, os\np = "@ + quoted(
            path,
        ) + "\nb = base64.b64decode("@ + quoted(encoding::standard64(b))
            + ".encode(\"ascii\"))\nwith open(p, \"wb\") as f:\n    f.write(b)\nPY\n"@,
{
}

/// Remote repositories and why there is none say what they hold.
pub proof fn law_remotes_say_their_fields(s: RemoteSpec, root: String)
    ensures
        match s {
            RemoteSpec::Http { base, repo, token } => s@ == (RemoteView::Http {
                base: base@,
                repo: repo@,
                token: model::opt_text(token),
            }),
            RemoteSpec::Ssh { user_host, root, repo } => s@ == (RemoteView::Ssh {
                user_host: user_host@,
                root: root@,
                repo: repo@,
            }),
        },
        outcome(Ok(s)) == Ok::<RemoteView, RemoteErrorView>(s@),
        outcome(Err(RemoteError::NoRoot)) == Err::<RemoteView, RemoteErrorView>(RemoteErrorView::NoRoot),
        outcome(Err(RemoteError::RelativeRoot { root })) == Err::<RemoteView, RemoteErrorView>(
            RemoteErrorView::RelativeRoot { root: root@ },
        ),
{
}

/// Any address that does not begin with `ssh://` is that of a server, with the repository and the
/// token that were given, and all slashes at its end are left out.
pub proof fn law_server_address_for_any_input(
    url: Seq<char>,
    repo: Seq<char>,
    token: Option<Seq<char>>,
    ssh_root: Option<Seq<char>>,
)
    requires
        !text::has_prefix(url, "ssh://"@),
    ensures
        remote_at(url, repo, token, ssh_root) == Ok::<RemoteView, RemoteErrorView>(
            RemoteView::Http { base: text::strip_back(url, "/"@), repo, token },
        ),
        repo_url(url, repo) == text::strip_back(url, "/"@) + "/r/"@ + repo,
        remote_dir(url, repo) == text::strip_back(url, "/"@) + "/"@ + repo + "/"@ + ".pop"@,
{
}

/// Over ssh more than one slash at the front of the directory is read as one, and a directory that
/// is missing behind the colon is no absolute one.
pub proof fn law_ssh_directories(user_host: Seq<char>, root: Seq<char>, repo: Seq<char>, token: Option<Seq<char>>)
    requires
        !user_host.contains(':'),
        user_host != "ssh"@,
    ensures
        root.len() >= 2 && root[0] == '/' && root[1] == '/' ==> remote_at(
            "ssh://"@ + user_host + ":"@ + root,
            repo,
            token,
            None,
        ) == Ok::<RemoteView, RemoteErrorView>(
            RemoteView::Ssh { user_host, root: "/"@ + text::strip_front(root, "/"@), repo },
        ),
        remote_at("ssh://"@ + user_host + ":"@, repo, token, None) == Err::<RemoteView, RemoteErrorView>(
            RemoteErrorView::RelativeRoot { root: Seq::empty() },
        ),
{
    lemma_ssh_rest(user_host, root);
    let none = Seq::<char>::empty();
    lemma_ssh_rest(user_host, none);
    reveal_strlit("//");
    reveal_strlit("/");
    assert("ssh://"@ + user_host + ":"@ + none =~= "ssh://"@ + user_host + ":"@);
    if root.len() >= 2 && root[0] == '/' && root[1] == '/' {
        assert(root.take(2) =~= "//"@);
        let r = "/"@ + text::strip_front(root, "/"@);
        assert(r[0] == '/');
    }
}

proof fn lemma_ssh_rest(user_host: Seq<char>, root: Seq<char>)
    requires
        !user_host.contains(':'),
        user_host != "ssh"@,
    ensures
        ({
            let url = "ssh://"@ + user_host + ":"@ + root;
            let rest = text::strip_front(url, "ssh://"@);
            let k = text::find(rest, ':');
            &&& text::has_prefix(url, "ssh://"@)
            &&& k == user_host.len() && k < rest.len()
            &&& rest.take(k) == user_host
            &&& rest.skip(k + 1) == root
        }),
{
    reveal_strlit("ssh://");
    reveal_strlit(":");
    let pre = "ssh://"@;
    let rest = user_host + ":"@ + root;
    let url = pre + user_host + ":"@ + root;
    assert(url =~= pre + rest);
    assert(rest.take(user_host.len() as int) =~= user_host);
    assert(rest[user_host.len() as int] == ':');
    lemma_no_ssh(user_host, rest);
    text::law_prefix_and_rest(url, pre, rest);
    text::law_stripping_takes_all(rest, pre);
    text::lemma_find(rest, ':');
    let k = text::find(rest, ':');
    assert(rest.contains(':'));
    assert(k == user_host.len()) by {
        if k < user_host.len() {
            assert(rest[k] == user_host[k]);
            assert(user_host.contains(':'));
        }
    }
    assert(rest.take(k) =~= user_host);
    assert(rest.skip(k + 1) =~= root);
}

} // verus!

//! Who may use a server.

use vstd::prelude::*;
use vstd::string::*;

use crate::bytes;
use crate::model;
use crate::text;

verus! {

/// Whether `a` and `b` are the same, compared to the end in any case.
pub fn ct_eq(a: &[u8], b: &[u8]) -> (r: bool)
    ensures
        r == (a@ == b@),
{
    if a.len() != b.len() {
        return false;
    }
    let mut acc: u8 = 0;
    let mut i: usize = 0;
    while i < a.len()
        invariant
            i <= a@.len() == b@.len(),
            acc == 0 <==> forall|j: int| 0 <= j < i ==> a@[j] == b@[j],
        decreases a@.len() - i,
    {
        let x: u8 = a[i];
        let y: u8 = b[i];
        let ghost before = acc;
        acc = acc | (x ^ y);
        proof {
            assert((before | (x ^ y)) == 0 <==> before == 0 && x == y) by (bit_vector);
            if before == 0 && x == y {
                assert(forall|j: int| 0 <= j < i + 1 ==> a@[j] == b@[j]);
            } else if before == 0 {
                assert(a@[i as int] != b@[i as int]);
            } else {
                let j = choose|j: int| 0 <= j < i && a@[j] != b@[j];
                assert(0 <= j < i + 1 && a@[j] != b@[j]);
            }
        }
        i = i + 1;
    }
    proof {
        if acc == 0 {
            assert(a@ =~= b@);
        } else {
            let j = choose|j: int| 0 <= j < i && a@[j] != b@[j];
            assert(a@[j] != b@[j]);
        }
    }
    acc == 0
}

/// Texts with the same bytes are the same.
pub proof fn lemma_utf8_injective(a: Seq<char>, b: Seq<char>)
    ensures
        bytes::utf8(a) == bytes::utf8(b) <==> a == b,
{
    vstd::utf8::encode_utf8_decode_utf8(a);
    vstd::utf8::encode_utf8_decode_utf8(b);
}

/// Whether two texts are the same, compared to the end in any case.
pub fn ct_eq_text(a: &str, b: &str) -> (r: bool)
    ensures
        r == (a@ == b@),
{
    proof {
        lemma_utf8_injective(a@, b@);
    }
    ct_eq(a.as_bytes(), b.as_bytes())
}

/// The token in an authorization header: what follows `Bearer `, or nothing.
pub open spec fn bearer(header: Option<Seq<char>>) -> Seq<char> {
    match header {
        Some(h) => if text::has_prefix(h, "Bearer "@) {
            h.skip("Bearer "@.len() as int)
        } else {
            Seq::empty()
        },
        None => Seq::empty(),
    }
}

/// A request with this authorization header is allowed on a server with this token: it brings
/// the token. A server without a token asks for none and allows every request.
pub open spec fn allowed(header: Option<Seq<char>>, token: Option<Seq<char>>) -> bool {
    match token {
        Some(t) => bearer(header) == t,
        None => true,
    }
}

/// Whether a request with this authorization header is allowed on a server with this token.
pub fn auth_ok(header: &Option<String>, token: &Option<String>) -> (r: bool)
    ensures
        r == allowed(model::opt_text(*header), model::opt_text(*token)),
{
    let expected = match token {
        Some(t) => t,
        None => {
            return true;
        },
    };
    let got = match header {
        Some(h) => match text::strip_prefix(h.as_str(), "Bearer ") {
            Some(rest) => rest,
            None => String::new(),
        },
        None => String::new(),
    };
    assert(got@ =~= bearer(model::opt_text(*header)));
    ct_eq_text(got.as_str(), expected.as_str())
}

/// Who holds the locks that are taken here: `POP_USER` where it says anything, else the user at
/// the host.
pub open spec fn owner_of(
    pop_user: Option<Seq<char>>,
    user: Option<Seq<char>>,
    username: Option<Seq<char>>,
    hostname: Option<Seq<char>>,
    computername: Option<Seq<char>>,
) -> Seq<char> {
    if pop_user is Some && text::trimmed(pop_user->0).len() > 0 {
        pop_user->0
    } else {
        either(user, username, "unknown"@) + "@"@ + either(hostname, computername, "host"@)
    }
}

/// The first of two optional texts that is there, or a third.
pub open spec fn either(a: Option<Seq<char>>, b: Option<Seq<char>>, other: Seq<char>) -> Seq<char> {
    match a {
        Some(x) => x,
        None => match b {
            Some(y) => y,
            None => other,
        },
    }
}

fn first_of(a: &Option<String>, b: &Option<String>, other: &str) -> (r: String)
    ensures
        r@ == either(model::opt_text(*a), model::opt_text(*b), other@),
{
    match a {
        Some(x) => x.clone(),
        None => match b {
            Some(y) => y.clone(),
            None => String::from_str(other),
        },
    }
}

/// Who holds the locks that are taken here, from what the environment says.
pub fn owner_string(
    pop_user: &Option<String>,
    user: &Option<String>,
    username: &Option<String>,
    hostname: &Option<String>,
    computername: &Option<String>,
) -> (r: String)
    ensures
        r@ == owner_of(
            model::opt_text(*pop_user),
            model::opt_text(*user),
            model::opt_text(*username),
            model::opt_text(*hostname),
            model::opt_text(*computername),
        ),
{
    match pop_user {
        Some(u) => {
            if !text::trim(u.as_str()).as_str().is_empty() {
                return u.clone();
            }
        },
        None => {},
    }
    let mut s = first_of(user, username, "unknown");
    s.append("@");
    s.append(first_of(hostname, computername, "host").as_str());
    s
}

/// A request with the header that a client makes of a token is allowed on a server with that
/// token.
pub proof fn law_client_header_is_allowed(token: Seq<char>)
    ensures
        allowed(Some("Bearer "@ + token), Some(token)),
{
    let h = "Bearer "@ + token;
    assert(h.take("Bearer "@.len() as int) =~= "Bearer "@);
    assert(h.skip("Bearer "@.len() as int) =~= token);
}

/// On a server with a token a request is allowed exactly where its header is `Bearer `, with one
/// blank, and the token to the letter, or where the token is empty and the header brings none;
/// a server without a token allows all.
pub proof fn law_allowed_exactly(header: Option<Seq<char>>, token: Seq<char>)
    ensures
        allowed(header, None),
        token.len() > 0 ==> (allowed(header, Some(token)) <==> header == Some("Bearer "@ + token)),
        allowed(None, Some(token)) <==> token.len() == 0,
{
    let pre = "Bearer "@;
    let none = Seq::<char>::empty();
    match header {
        Some(h) => {
            if text::has_prefix(h, pre) {
                assert(h =~= pre + h.skip(pre.len() as int));
            }
            if h == pre + token {
                assert(h.take(pre.len() as int) =~= pre);
                assert(h.skip(pre.len() as int) =~= token);
            }
        },
        None => {},
    }
    if token.len() == 0 {
        assert(token =~= none);
    }
}

/// An owner is who `POP_USER` says, unless that is blank; else a user at a host, each of which
/// the first variable tells that is set.
pub proof fn law_owner_is_told_by_the_first_that_is_set(a: Seq<char>, b: Seq<char>, h: Seq<char>, c: Option<Seq<char>>)
    ensures
        text::trimmed(a).len() > 0 ==> owner_of(Some(a), c, c, c, c) == a,
        owner_of(None, Some(b), c, Some(h), c) == b + "@"@ + h,
        owner_of(None, None, Some(b), None, Some(h)) == b + "@"@ + h,
        owner_of(None, None, None, None, None) == "unknown"@ + "@"@ + "host"@,
        text::trimmed(a).len() == 0 ==> owner_of(Some(a), Some(b), c, Some(h), c) == b + "@"@ + h,
{
}

/// The user and the host of an owner are each told by the first of their two variables where it is
/// set, and else by the second; and each by itself.
pub proof fn law_user_and_host_are_told_apart(
    u: Option<Seq<char>>,
    n: Option<Seq<char>>,
    h: Option<Seq<char>>,
    c: Option<Seq<char>>,
    a: Seq<char>,
)
    ensures
        owner_of(None, Some(a), n, h, c) == owner_of(None, None, Some(a), h, c),
        owner_of(None, u, n, Some(a), c) == owner_of(None, u, n, None, Some(a)),
        owner_of(None, u, n, None, None) == owner_of(None, u, n, Some("host"@), c),
        owner_of(None, None, None, h, c) == owner_of(None, Some("unknown"@), n, h, c),
        owner_of(None, Some(a), n, Some(a), c) == a + "@"@ + a,
{
}

} // verus!

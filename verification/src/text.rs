//! Text: the order of names, trimming, splitting, and decimal numbers, all stated over
//! sequences of characters.

use vstd::prelude::*;
use vstd::string::*;

verus! {

/// `String::push` of the standard library appends one character.
pub assume_specification[ String::push ](s: &mut String, c: char)
    ensures
        final(s)@ == old(s)@.push(c),
;

// ---------------------------------------------------------------------------------------
// Order
// ---------------------------------------------------------------------------------------
/// The lexicographic order of character sequences. UTF-8 keeps the order of code points, so
/// this is also the byte order of the encoded strings.
pub open spec fn lex_lt(a: Seq<char>, b: Seq<char>) -> bool
    decreases a.len(),
{
    if b.len() == 0 {
        false
    } else if a.len() == 0 {
        true
    } else if a[0] == b[0] {
        lex_lt(a.drop_first(), b.drop_first())
    } else {
        a[0] < b[0]
    }
}

/// No text comes before itself.
pub proof fn lemma_lex_irreflexive(a: Seq<char>)
    ensures
        !lex_lt(a, a),
    decreases a.len(),
{
    if a.len() > 0 {
        lemma_lex_irreflexive(a.drop_first());
    }
}

/// The order is transitive.
pub proof fn lemma_lex_transitive(a: Seq<char>, b: Seq<char>, c: Seq<char>)
    requires
        lex_lt(a, b),
        lex_lt(b, c),
    ensures
        lex_lt(a, c),
    decreases a.len(),
{
    if a.len() > 0 && a[0] == b[0] && b[0] == c[0] {
        lemma_lex_transitive(a.drop_first(), b.drop_first(), c.drop_first());
    }
}

/// Of two different texts one comes before the other.
pub proof fn lemma_lex_total(a: Seq<char>, b: Seq<char>)
    ensures
        lex_lt(a, b) || lex_lt(b, a) || a == b,
    decreases a.len(),
{
    if a.len() == 0 {
        assert(b.len() == 0 ==> a =~= b);
    } else if b.len() > 0 && a[0] == b[0] {
        lemma_lex_total(a.drop_first(), b.drop_first());
        if a.drop_first() == b.drop_first() {
            assert(a =~= seq![a[0]] + a.drop_first());
            assert(b =~= seq![b[0]] + b.drop_first());
        }
    }
}

/// Two texts never come before each other.
pub proof fn lemma_lex_asymmetric(a: Seq<char>, b: Seq<char>)
    requires
        lex_lt(a, b),
    ensures
        !lex_lt(b, a),
        a != b,
{
    lemma_lex_irreflexive(a);
    if lex_lt(b, a) {
        lemma_lex_transitive(a, b, a);
    }
}

/// Whether `a` comes before `b` in the order of names.
pub fn str_lt(a: &str, b: &str) -> (r: bool)
    ensures
        r == lex_lt(a@, b@),
{
    let mut x = a.chars();
    let mut y = b.chars();
    let ghost mut k: int = 0;
    loop
        invariant
            0 <= k <= a@.len(),
            k <= b@.len(),
            vstd::std_specs::iter::IteratorSpec::remaining(&x) == a@.skip(k),
            vstd::std_specs::iter::IteratorSpec::remaining(&y) == b@.skip(k),
            lex_lt(a@, b@) == lex_lt(a@.skip(k), b@.skip(k)),
        decreases a@.len() - k,
    {
        match y.next() {
            None => {
                return false;
            },
            Some(d) => {
                match x.next() {
                    None => {
                        return true;
                    },
                    Some(c) => {
                        if c != d {
                            return c < d;
                        }
                        proof {
                            assert(a@.skip(k).drop_first() == a@.skip(k + 1));
                            assert(b@.skip(k).drop_first() == b@.skip(k + 1));
                            k = k + 1;
                        }
                    },
                }
            },
        }
    }
}

/// Whether `a` and `b` hold the same characters.
pub fn str_eq(a: &str, b: &str) -> (r: bool)
    ensures
        r == (a@ == b@),
{
    let mut x = a.chars();
    let mut y = b.chars();
    let ghost mut k: int = 0;
    loop
        invariant
            0 <= k <= a@.len(),
            k <= b@.len(),
            vstd::std_specs::iter::IteratorSpec::remaining(&x) == a@.skip(k),
            vstd::std_specs::iter::IteratorSpec::remaining(&y) == b@.skip(k),
            a@.take(k) == b@.take(k),
        decreases a@.len() - k,
    {
        match (x.next(), y.next()) {
            (None, None) => {
                proof {
                    assert(a@.skip(k).len() == 0 && b@.skip(k).len() == 0);
                    assert(a@ =~= a@.take(k));
                    assert(b@ =~= b@.take(k));
                }
                return true;
            },
            (Some(c), Some(d)) => {
                assert(c == a@[k] && d == b@[k]);
                if c != d {
                    return false;
                }
                proof {
                    assert(a@.skip(k).drop_first() == a@.skip(k + 1));
                    assert(b@.skip(k).drop_first() == b@.skip(k + 1));
                    assert(a@.take(k + 1) =~= a@.take(k).push(c));
                    assert(b@.take(k + 1) =~= b@.take(k).push(d));
                    k = k + 1;
                }
            },
            (Some(_c), None) => {
                assert(a@.skip(k).len() > 0 && b@.skip(k).len() == 0);
                return false;
            },
            (None, Some(_d)) => {
                assert(a@.skip(k).len() == 0 && b@.skip(k).len() > 0);
                return false;
            },
        }
    }
}

// ---------------------------------------------------------------------------------------
// Characters
// ---------------------------------------------------------------------------------------
/// The characters of `s`, one by one.
pub fn chars_of(s: &str) -> (r: Vec<char>)
    ensures
        r@ == s@,
{
    let mut v: Vec<char> = Vec::new();
    for c in it: s.chars()
        invariant
            v@ == it.seq().take(it.index() as int),
            it.seq() == s@,
    {
        v.push(c);
    }
    v
}

/// The text made of the characters `from..to` of `v`.
pub fn text_of(v: &Vec<char>, from: usize, to: usize) -> (r: String)
    requires
        from <= to <= v@.len(),
    ensures
        r@ == v@.subrange(from as int, to as int),
{
    let mut s = String::new();
    let mut i: usize = from;
    while i < to
        invariant
            from <= i <= to <= v@.len(),
            s@ == v@.subrange(from as int, i as int),
        decreases to - i,
    {
        s.push(v[i]);
        proof {
            assert(v@.subrange(from as int, i + 1) =~= v@.subrange(from as int, i as int).push(
                v@[i as int],
            ));
        }
        i = i + 1;
    }
    s
}

/// The texts of a list of strings.
pub open spec fn texts(v: Seq<String>) -> Seq<Seq<char>> {
    v.map_values(|s: String| s@)
}

/// The characters with the White_Space property of Unicode.
pub open spec fn is_space(c: char) -> bool {
    ||| '\u{9}' <= c <= '\u{d}'
    ||| c == ' '
    ||| c == '\u{85}'
    ||| c == '\u{a0}'
    ||| c == '\u{1680}'
    ||| '\u{2000}' <= c <= '\u{200a}'
    ||| c == '\u{2028}'
    ||| c == '\u{2029}'
    ||| c == '\u{202f}'
    ||| c == '\u{205f}'
    ||| c == '\u{3000}'
}

/// Whether `c` is white space.
pub fn is_whitespace(c: char) -> (r: bool)
    ensures
        r == is_space(c),
{
    ('\u{9}' <= c && c <= '\u{d}') || c == ' ' || c == '\u{85}' || c == '\u{a0}' || c == '\u{1680}'
        || ('\u{2000}' <= c && c <= '\u{200a}') || c == '\u{2028}' || c == '\u{2029}' || c
        == '\u{202f}' || c == '\u{205f}' || c == '\u{3000}'
}

// ---------------------------------------------------------------------------------------
// Prefixes and suffixes
// ---------------------------------------------------------------------------------------
/// `s` begins with `p`.
pub open spec fn has_prefix(s: Seq<char>, p: Seq<char>) -> bool {
    p.len() <= s.len() && s.take(p.len() as int) == p
}

/// `s` ends with `p`.
pub open spec fn has_suffix(s: Seq<char>, p: Seq<char>) -> bool {
    p.len() <= s.len() && s.skip(s.len() - p.len()) == p
}

/// Whether the characters of `v` from `at` on begin with `p`.
fn matches_at(v: &Vec<char>, at: usize, p: &Vec<char>) -> (r: bool)
    requires
        at <= v@.len(),
    ensures
        r == (at + p@.len() <= v@.len() && v@.subrange(at as int, at + p@.len()) == p@),
{
    let n = v.len();
    if p.len() > n - at {
        return false;
    }
    let mut i: usize = 0;
    while i < p.len()
        invariant
            i <= p@.len(),
            at + p@.len() <= v@.len() == n,
            forall|j: int| 0 <= j < i ==> v@[at + j] == p@[j],
        decreases p@.len() - i,
    {
        if v[at + i] != p[i] {
            assert(v@.subrange(at as int, at + p@.len())[i as int] != p@[i as int]);
            return false;
        }
        i = i + 1;
    }
    assert(v@.subrange(at as int, at + p@.len()) =~= p@);
    true
}

/// Whether `s` begins with `p`.
pub fn starts_with(s: &str, p: &str) -> (r: bool)
    ensures
        r == has_prefix(s@, p@),
{
    let v = chars_of(s);
    let q = chars_of(p);
    let r = matches_at(&v, 0, &q);
    proof {
        if p@.len() <= s@.len() {
            assert(v@.subrange(0, p@.len() as int) =~= s@.take(p@.len() as int));
        }
    }
    r
}

/// Whether `s` ends with `p`.
pub fn ends_with(s: &str, p: &str) -> (r: bool)
    ensures
        r == has_suffix(s@, p@),
{
    let v = chars_of(s);
    let q = chars_of(p);
    if q.len() > v.len() {
        return false;
    }
    let r = matches_at(&v, v.len() - q.len(), &q);
    proof {
        assert(v@.subrange(s@.len() - p@.len(), s@.len() as int) =~= s@.skip(s@.len() - p@.len()));
    }
    r
}

/// `s` without the prefix `p`, as often as it stands at the front.
pub open spec fn strip_front(s: Seq<char>, p: Seq<char>) -> Seq<char>
    decreases s.len(),
{
    if p.len() > 0 && has_prefix(s, p) {
        strip_front(s.skip(p.len() as int), p)
    } else {
        s
    }
}

/// `s` without the suffix `p`, as often as it stands at the end.
pub open spec fn strip_back(s: Seq<char>, p: Seq<char>) -> Seq<char>
    decreases s.len(),
{
    if p.len() > 0 && has_suffix(s, p) {
        strip_back(s.take(s.len() - p.len()), p)
    } else {
        s
    }
}

/// Removes the prefix `p` from `s` as often as it stands there.
pub fn trim_start_matches(s: &str, p: &str) -> (r: String)
    ensures
        r@ == strip_front(s@, p@),
{
    let v = chars_of(s);
    let q = chars_of(p);
    let mut i: usize = 0;
    assert(s@.skip(0) =~= s@);
    let n = v.len();
    if q.len() > 0 {
        while matches_at(&v, i, &q)
            invariant
                i <= v@.len() == n,
                v@ == s@,
                q@ == p@,
                q@.len() > 0,
                strip_front(s@, p@) == strip_front(s@.skip(i as int), p@),
            ensures
                i <= v@.len(),
                !(i + q@.len() <= v@.len() && v@.subrange(i as int, i + q@.len()) == q@),
                strip_front(s@, p@) == strip_front(s@.skip(i as int), p@),
            decreases v@.len() - i,
        {
            proof {
                assert(s@.skip(i as int).take(p@.len() as int) =~= v@.subrange(
                    i as int,
                    i + q@.len(),
                ));
                assert(s@.skip(i as int).skip(p@.len() as int) =~= s@.skip(i + p@.len()));
            }
            i = i + q.len();
        }
        proof {
            if has_prefix(s@.skip(i as int), p@) {
                assert(s@.skip(i as int).take(p@.len() as int) =~= v@.subrange(
                    i as int,
                    i + q@.len(),
                ));
            }
        }
    }
    proof {
        assert(v@.subrange(i as int, v@.len() as int) =~= s@.skip(i as int));
    }
    text_of(&v, i, v.len())
}

/// Removes the suffix `p` from `s` as often as it stands there.
pub fn trim_end_matches(s: &str, p: &str) -> (r: String)
    ensures
        r@ == strip_back(s@, p@),
{
    let v = chars_of(s);
    let q = chars_of(p);
    let mut j: usize = v.len();
    assert(s@.take(j as int) =~= s@);
    if q.len() > 0 {
        while j >= q.len()
            invariant
                j <= v@.len(),
                v@ == s@,
                q@ == p@,
                q@.len() > 0,
                strip_back(s@, p@) == strip_back(s@.take(j as int), p@),
            ensures
                j <= v@.len(),
                !has_suffix(s@.take(j as int), p@),
                strip_back(s@, p@) == strip_back(s@.take(j as int), p@),
            decreases j,
        {
            proof {
                assert(s@.take(j as int).skip(j - p@.len()) =~= v@.subrange(
                    j - q@.len(),
                    j - q@.len() + q@.len(),
                ));
                assert(s@.take(j as int).take(j - p@.len()) =~= s@.take(j - p@.len()));
            }
            if !matches_at(&v, j - q.len(), &q) {
                break;
            }
            j = j - q.len();
        }
    }
    proof {
        assert(v@.subrange(0, j as int) =~= s@.take(j as int));
    }
    text_of(&v, 0, j)
}

/// `s` from its first character on that is not white space.
pub open spec fn trim_front(s: Seq<char>) -> Seq<char>
    decreases s.len(),
{
    if s.len() > 0 && is_space(s[0]) {
        trim_front(s.drop_first())
    } else {
        s
    }
}

/// `s` up to its last character that is not white space.
pub open spec fn trim_back(s: Seq<char>) -> Seq<char>
    decreases s.len(),
{
    if s.len() > 0 && is_space(s.last()) {
        trim_back(s.drop_last())
    } else {
        s
    }
}

/// `s` without the white space at both ends.
pub open spec fn trimmed(s: Seq<char>) -> Seq<char> {
    trim_back(trim_front(s))
}

/// Removes the white space at both ends of `s`.
pub fn trim(s: &str) -> (r: String)
    ensures
        r@ == trimmed(s@),
{
    let v = chars_of(s);
    let n = v.len();
    let mut i: usize = 0;
    assert(s@.skip(0) =~= s@);
    while i < n && is_whitespace(v[i])
        invariant
            i <= n == v@.len(),
            v@ == s@,
            trim_front(s@) == trim_front(s@.skip(i as int)),
        decreases n - i,
    {
        assert(s@.skip(i as int).drop_first() =~= s@.skip(i + 1));
        i = i + 1;
    }
    assert(trim_front(s@) == s@.skip(i as int));
    let mut j: usize = n;
    let ghost front = s@.skip(i as int);
    assert(front.take(j - i) =~= front);
    while j > i && is_whitespace(v[j - 1])
        invariant
            i <= j <= n == v@.len(),
            v@ == s@,
            front == s@.skip(i as int),
            trim_back(front) == trim_back(front.take(j - i)),
        decreases j,
    {
        assert(front.take(j - i).drop_last() =~= front.take(j - 1 - i));
        assert(front.take(j - i).last() == v@[j - 1]);
        j = j - 1;
    }
    proof {
        if j > i {
            assert(front.take(j - i).last() == v@[j - 1]);
        }
        assert(v@.subrange(i as int, j as int) =~= front.take(j - i));
    }
    text_of(&v, i, j)
}

/// `s` without the prefix `p`, where it has it.
pub fn strip_prefix(s: &str, p: &str) -> (r: Option<String>)
    ensures
        match r {
            Some(t) => has_prefix(s@, p@) && t@ == s@.skip(p@.len() as int),
            None => !has_prefix(s@, p@),
        },
{
    if !starts_with(s, p) {
        return None;
    }
    let v = chars_of(s);
    let q = chars_of(p);
    proof {
        assert(v@.subrange(p@.len() as int, v@.len() as int) =~= s@.skip(p@.len() as int));
    }
    Some(text_of(&v, q.len(), v.len()))
}

// ---------------------------------------------------------------------------------------
// Searching and replacing
// ---------------------------------------------------------------------------------------
/// The position of the first `c` in `s`, or the length of `s` where there is none.
pub open spec fn find(s: Seq<char>, c: char) -> int
    decreases s.len(),
{
    if s.len() == 0 || s[0] == c {
        0
    } else {
        1 + find(s.drop_first(), c)
    }
}

/// What `find` gives is the first position that holds `c`.
pub proof fn lemma_find(s: Seq<char>, c: char)
    ensures
        0 <= find(s, c) <= s.len(),
        find(s, c) < s.len() ==> s[find(s, c)] == c,
        forall|i: int| 0 <= i < find(s, c) ==> s[i] != c,
        s.contains(c) <==> find(s, c) < s.len(),
    decreases s.len(),
{
    if s.len() > 0 && s[0] != c {
        lemma_find(s.drop_first(), c);
        assert forall|i: int| 0 <= i < find(s, c) implies s[i] != c by {
            if i > 0 {
                assert(s.drop_first()[i - 1] == s[i]);
            }
        }
        if s.contains(c) {
            let k = choose|k: int| 0 <= k < s.len() && s[k] == c;
            assert(s.drop_first()[k - 1] == c);
        }
    }
}

/// The position of the first `c` among the characters of `v`, or their number.
pub fn position(v: &Vec<char>, c: char) -> (r: usize)
    ensures
        r == find(v@, c),
        r <= v@.len(),
{
    let mut i: usize = 0;
    assert(v@.skip(0) =~= v@);
    while i < v.len() && v[i] != c
        invariant
            i <= v@.len(),
            find(v@, c) == i + find(v@.skip(i as int), c),
        decreases v@.len() - i,
    {
        assert(v@.skip(i as int).drop_first() =~= v@.skip(i + 1));
        i = i + 1;
    }
    i
}

/// Whether `c` occurs in `s`.
pub fn has_char(s: &str, c: char) -> (r: bool)
    ensures
        r == s@.contains(c),
{
    let v = chars_of(s);
    let p = position(&v, c);
    proof {
        lemma_find(s@, c);
    }
    p < v.len()
}

/// Two dots stand side by side somewhere in `s`.
pub open spec fn has_dot_dot(s: Seq<char>) -> bool {
    exists|i: int| 0 <= i && i + 1 < s.len() && #[trigger] s[i] == '.' && s[i + 1] == '.'
}

/// Whether two dots stand side by side in `s`.
pub fn contains_dot_dot(s: &str) -> (r: bool)
    ensures
        r == has_dot_dot(s@),
{
    let v = chars_of(s);
    let mut i: usize = 0;
    while i < v.len()
        invariant
            i <= v@.len(),
            v@ == s@,
            forall|k: int| 0 <= k < i && k + 1 < s@.len() ==> !(#[trigger] s@[k] == '.' && s@[k + 1] == '.'),
        decreases v@.len() - i,
    {
        if i + 1 < v.len() && v[i] == '.' && v[i + 1] == '.' {
            assert(s@[i as int] == '.' && s@[i + 1] == '.');
            return true;
        }
        i = i + 1;
    }
    false
}

/// `s` with every `from` replaced by `to`.
pub open spec fn replaced(s: Seq<char>, from: char, to: char) -> Seq<char> {
    s.map_values(
        |c: char|
            if c == from {
                to
            } else {
                c
            },
    )
}

/// Replaces every `from` in `s` by `to`.
pub fn replace_char(s: &str, from: char, to: char) -> (r: String)
    ensures
        r@ == replaced(s@, from, to),
{
    let v = chars_of(s);
    let mut out = String::new();
    let mut i: usize = 0;
    while i < v.len()
        invariant
            i <= v@.len(),
            v@ == s@,
            out@ == replaced(s@, from, to).take(i as int),
        decreases v@.len() - i,
    {
        let c = if v[i] == from {
            to
        } else {
            v[i]
        };
        out.push(c);
        assert(replaced(s@, from, to).take(i + 1) =~= replaced(s@, from, to).take(i as int).push(
            replaced(s@, from, to)[i as int],
        ));
        i = i + 1;
    }
    assert(replaced(s@, from, to).take(i as int) =~= replaced(s@, from, to));
    out
}

// ---------------------------------------------------------------------------------------
// Splitting
// ---------------------------------------------------------------------------------------
/// The pieces of `s` between the separators `sep`. There is always at least one.
pub open spec fn split(s: Seq<char>, sep: char) -> Seq<Seq<char>>
    decreases s.len(),
{
    if s.len() == 0 {
        seq![Seq::<char>::empty()]
    } else {
        let front = split(s.drop_last(), sep);
        if s.last() == sep {
            front.push(Seq::<char>::empty())
        } else {
            front.drop_last().push(front.last().push(s.last()))
        }
    }
}

/// A split has at least one piece.
pub proof fn lemma_split_nonempty(s: Seq<char>, sep: char)
    ensures
        split(s, sep).len() >= 1,
    decreases s.len(),
{
    if s.len() > 0 {
        lemma_split_nonempty(s.drop_last(), sep);
    }
}

/// The pieces of `s` between the separators `sep`.
pub fn split_text(s: &str, sep: char) -> (r: Vec<String>)
    ensures
        texts(r@) == split(s@, sep),
{
    let v = chars_of(s);
    let mut done: Vec<String> = Vec::new();
    let mut piece = String::new();
    let mut i: usize = 0;
    assert(texts(done@).push(piece@) =~= split(s@.take(0), sep));
    while i < v.len()
        invariant
            i <= v@.len(),
            v@ == s@,
            texts(done@).push(piece@) == split(s@.take(i as int), sep),
        decreases v@.len() - i,
    {
        let ghost before = texts(done@);
        let ghost whole = before.push(piece@);
        proof {
            assert(s@.take(i + 1).drop_last() =~= s@.take(i as int));
            assert(s@.take(i + 1).last() == v@[i as int]);
            assert(whole.drop_last() =~= before);
        }
        if v[i] == sep {
            done.push(piece);
            piece = String::new();
            assert(texts(done@) =~= whole);
        } else {
            piece.push(v[i]);
        }
        i = i + 1;
    }
    assert(s@.take(i as int) =~= s@);
    let ghost before = texts(done@);
    let ghost last = piece@;
    done.push(piece);
    assert(texts(done@) =~= before.push(last));
    done
}

/// The pieces that hold at least one character.
pub open spec fn nonempty(pieces: Seq<Seq<char>>) -> Seq<Seq<char>>
    decreases pieces.len(),
{
    if pieces.len() == 0 {
        Seq::empty()
    } else if pieces.last().len() == 0 {
        nonempty(pieces.drop_last())
    } else {
        nonempty(pieces.drop_last()).push(pieces.last())
    }
}

/// The names along a path: the pieces between its slashes, empty ones left out.
pub open spec fn path_parts(path: Seq<char>) -> Seq<Seq<char>> {
    nonempty(split(path, '/'))
}

/// The pieces that hold at least one character.
pub fn nonempty_texts(pieces: &Vec<String>) -> (r: Vec<String>)
    ensures
        texts(r@) == nonempty(texts(pieces@)),
{
    let mut out: Vec<String> = Vec::new();
    let mut i: usize = 0;
    assert(texts(out@) =~= nonempty(texts(pieces@).take(0)));
    while i < pieces.len()
        invariant
            i <= pieces@.len(),
            texts(out@) == nonempty(texts(pieces@).take(i as int)),
        decreases pieces@.len() - i,
    {
        let ghost before = texts(out@);
        proof {
            assert(texts(pieces@).take(i + 1).drop_last() =~= texts(pieces@).take(i as int));
            assert(texts(pieces@).take(i + 1).last() == pieces@[i as int]@);
        }
        if !pieces[i].as_str().is_empty() {
            out.push(pieces[i].clone());
            assert(texts(out@) =~= before.push(pieces@[i as int]@));
        }
        i = i + 1;
    }
    assert(texts(pieces@).take(i as int) =~= texts(pieces@));
    out
}

/// The names along a path.
pub fn split_path(path: &str) -> (r: Vec<String>)
    ensures
        texts(r@) == path_parts(path@),
{
    nonempty_texts(&split_text(path, '/'))
}

/// The first line of a text, without the white space around it.
pub open spec fn first_line(s: Seq<char>) -> Seq<char> {
    trimmed(s.take(find(s, '\n')))
}

/// The first line of a text, without the white space around it: what a one-line file such as
/// a branch file says.
pub fn read_first_line(s: &str) -> (r: String)
    ensures
        r@ == first_line(s@),
{
    let v = chars_of(s);
    let p = position(&v, '\n');
    let line = text_of(&v, 0, p);
    assert(line@ =~= s@.take(find(s@, '\n')));
    trim(line.as_str())
}

// ---------------------------------------------------------------------------------------
// Joining
// ---------------------------------------------------------------------------------------
/// `a` followed by `b`.
pub fn concat(a: &str, b: &str) -> (r: String)
    ensures
        r@ == a@ + b@,
{
    let mut s = String::from_str(a);
    s.append(b);
    s
}

/// The pieces one after the other, with `sep` between two of them.
pub open spec fn joined(pieces: Seq<Seq<char>>, sep: Seq<char>) -> Seq<char>
    decreases pieces.len(),
{
    if pieces.len() == 0 {
        Seq::empty()
    } else if pieces.len() == 1 {
        pieces[0]
    } else {
        joined(pieces.drop_last(), sep) + sep + pieces.last()
    }
}

/// Joins the pieces with `sep` between them.
pub fn join(pieces: &Vec<String>, sep: &str) -> (r: String)
    ensures
        r@ == joined(texts(pieces@), sep@),
{
    let mut out = String::new();
    let mut i: usize = 0;
    while i < pieces.len()
        invariant
            i <= pieces@.len(),
            out@ == joined(texts(pieces@).take(i as int), sep@),
        decreases pieces@.len() - i,
    {
        proof {
            let t = texts(pieces@);
            assert(t.take(i + 1).drop_last() =~= t.take(i as int));
            assert(t.take(i + 1).last() == pieces@[i as int]@);
        }
        if i > 0 {
            out.append(sep);
        }
        out.append(pieces[i].as_str());
        proof {
            if i == 0 {
                assert(out@ =~= pieces@[0]@);
            }
        }
        i = i + 1;
    }
    assert(texts(pieces@).take(i as int) =~= texts(pieces@));
    out
}

// ---------------------------------------------------------------------------------------
// Decimal numbers
// ---------------------------------------------------------------------------------------
/// The character of a decimal digit.
pub open spec fn digit(d: nat) -> char {
    if d == 0 {
        '0'
    } else if d == 1 {
        '1'
    } else if d == 2 {
        '2'
    } else if d == 3 {
        '3'
    } else if d == 4 {
        '4'
    } else if d == 5 {
        '5'
    } else if d == 6 {
        '6'
    } else if d == 7 {
        '7'
    } else if d == 8 {
        '8'
    } else {
        '9'
    }
}

/// The value of a decimal digit.
pub open spec fn digit_value(c: char) -> Option<nat> {
    if '0' <= c <= '9' {
        Some((c as int - '0' as int) as nat)
    } else {
        None
    }
}

/// A number in decimal, without leading zeros.
pub open spec fn decimal(n: nat) -> Seq<char>
    decreases n,
{
    if n < 10 {
        seq![digit(n)]
    } else {
        decimal(n / 10).push(digit(n % 10))
    }
}

/// The number that a row of decimal digits stands for.
pub open spec fn digits_value(s: Seq<char>) -> Option<nat>
    decreases s.len(),
{
    if s.len() == 0 {
        Some(0)
    } else {
        match (digits_value(s.drop_last()), digit_value(s.last())) {
            (Some(v), Some(d)) => Some(10 * v + d),
            _ => None,
        }
    }
}

/// The `u64` that a text stands for: decimal digits, at least one, with an optional `+`.
pub open spec fn u64_value(s: Seq<char>) -> Option<u64> {
    let t = if s.len() > 0 && s[0] == '+' {
        s.drop_first()
    } else {
        s
    };
    if t.len() == 0 {
        None
    } else {
        match digits_value(t) {
            Some(v) => if v <= u64::MAX {
                Some(v as u64)
            } else {
                None
            },
            None => None,
        }
    }
}

fn digit_char(d: u64) -> (r: char)
    requires
        d < 10,
    ensures
        r == digit(d as nat),
{
    match d {
        0 => '0',
        1 => '1',
        2 => '2',
        3 => '3',
        4 => '4',
        5 => '5',
        6 => '6',
        7 => '7',
        8 => '8',
        _ => '9',
    }
}

/// A number in decimal.
pub fn decimal_text(n: u64) -> (r: String)
    ensures
        r@ == decimal(n as nat),
    decreases n,
{
    if n < 10 {
        let mut s = String::new();
        s.push(digit_char(n));
        assert(s@ =~= seq![digit(n as nat)]);
        s
    } else {
        let mut s = decimal_text(n / 10);
        s.push(digit_char(n % 10));
        s
    }
}

/// An integer in decimal digits, with a minus sign where it is negative.
pub open spec fn signed_decimal(i: int) -> Seq<char> {
    if i < 0 {
        "-"@ + decimal((-i) as nat)
    } else {
        decimal(i as nat)
    }
}

/// An integer in decimal digits.
pub fn signed_text(i: i64) -> (r: String)
    ensures
        r@ == signed_decimal(i as int),
{
    if i < 0 {
        let size: u64 = (-(i + 1)) as u64 + 1;
        concat("-", decimal_text(size).as_str())
    } else {
        decimal_text(i as u64)
    }
}

/// `s` with zeros in front, so that it holds at least `width` characters.
pub open spec fn zero_padded(s: Seq<char>, width: nat) -> Seq<char> {
    if s.len() >= width {
        s
    } else {
        Seq::new((width - s.len()) as nat, |i: int| '0') + s
    }
}

/// A number in decimal with at least `width` digits.
pub fn padded_decimal(n: u64, width: usize) -> (r: String)
    ensures
        r@ == zero_padded(decimal(n as nat), width as nat),
{
    let s = decimal_text(n);
    let v = chars_of(s.as_str());
    if v.len() >= width {
        return s;
    }
    let fill: usize = width - v.len();
    let mut out = String::new();
    let mut i: usize = 0;
    while i < fill
        invariant
            i <= fill,
            out@ == Seq::new(i as nat, |k: int| '0'),
        decreases fill - i,
    {
        out.push('0');
        assert(out@ =~= Seq::new((i + 1) as nat, |k: int| '0'));
        i = i + 1;
    }
    out.append(s.as_str());
    out
}

proof fn lemma_digits_prefix(s: Seq<char>, k: int)
    requires
        0 <= k <= s.len(),
        digits_value(s) is Some,
    ensures
        digits_value(s.take(k)) is Some,
        digits_value(s.take(k)).unwrap() <= digits_value(s).unwrap(),
    decreases s.len(),
{
    if k < s.len() {
        lemma_digits_prefix(s.drop_last(), k);
        assert(s.drop_last().take(k) =~= s.take(k));
    } else {
        assert(s.take(k) =~= s);
    }
}

/// Reads a `u64` in decimal.
pub fn parse_u64(s: &str) -> (r: Option<u64>)
    ensures
        r == u64_value(s@),
{
    let v = chars_of(s);
    let start: usize = if v.len() > 0 && v[0] == '+' {
        1
    } else {
        0
    };
    let ghost t = s@.skip(start as int);
    proof {
        assert(start == 1 ==> t =~= s@.drop_first());
        assert(start == 0 ==> t =~= s@);
    }
    if start == v.len() {
        return None;
    }
    let mut value: u64 = 0;
    let mut i: usize = start;
    while i < v.len()
        invariant
            start <= i <= v@.len(),
            v@ == s@,
            t.len() > 0,
            t == s@.skip(start as int),
            t == (if s@.len() > 0 && s@[0] == '+' {
                s@.drop_first()
            } else {
                s@
            }),
            digits_value(t.take(i - start)) == Some(value as nat),
        decreases v@.len() - i,
    {
        let c = v[i];
        proof {
            assert(t.take(i + 1 - start).drop_last() =~= t.take(i - start));
            assert(t.take(i + 1 - start).last() == c);
        }
        if c < '0' || '9' < c {
            proof {
                if digits_value(t) is Some {
                    lemma_digits_prefix(t, i + 1 - start);
                }
            }
            return None;
        }
        let d: u64 = c as u64 - '0' as u64;
        if value > (u64::MAX - d) / 10 {
            proof {
                assert(10 * value + d > u64::MAX);
                if digits_value(t) is Some {
                    lemma_digits_prefix(t, i + 1 - start);
                }
            }
            return None;
        }
        value = 10 * value + d;
        i = i + 1;
    }
    assert(t.take(i - start) =~= t);
    Some(value)
}

/// Reading back a number that was written in decimal gives that number.
pub proof fn law_decimal_round_trip(n: u64)
    ensures
        u64_value(decimal(n as nat)) == Some(n),
{
    lemma_decimal_value(n as nat);
    lemma_decimal_first(n as nat);
}

/// The digits of a number stand for it.
pub proof fn lemma_decimal_value(n: nat)
    ensures
        digits_value(decimal(n)) == Some(n),
    decreases n,
{
    if n < 10 {
        assert(seq![digit(n)].drop_last() =~= Seq::empty());
        assert(digits_value(Seq::empty()) == Some(0nat));
    } else {
        lemma_decimal_value(n / 10);
        assert(decimal(n).drop_last() =~= decimal(n / 10));
    }
}

proof fn lemma_decimal_first(n: nat)
    ensures
        decimal(n).len() >= 1,
        forall|i: int| 0 <= i < decimal(n).len() ==> '0' <= #[trigger] decimal(n)[i] <= '9',
    decreases n,
{
    if n >= 10 {
        lemma_decimal_first(n / 10);
    }
}

/// Decimal digits hold no white space.
pub proof fn lemma_decimal_plain(n: nat)
    ensures
        decimal(n).len() > 0,
        forall|i: int| 0 <= i < decimal(n).len() ==> !is_space(#[trigger] decimal(n)[i]),
    decreases n,
{
    if n >= 10 {
        lemma_decimal_plain(n / 10);
    }
}

/// A line break behind a text that neither begins nor ends with white space is trimmed away.
pub proof fn lemma_trim_line(s: Seq<char>)
    requires
        s.len() > 0,
        !is_space(s[0]),
        !is_space(s.last()),
    ensures
        trimmed(s + "\n"@) == s,
{
    reveal_strlit("\n");
    let t = s + "\n"@;
    assert(t.last() == '\n');
    assert(t.drop_last() =~= s);
    assert(t[0] == s[0]);
    assert(trim_front(t) == t);
    assert(trim_back(s) == s);
    assert(trim_back(t) == trim_back(t.drop_last()));
}

// ---------------------------------------------------------------------------------------
// Laws
// ---------------------------------------------------------------------------------------
/// One text comes before another where it does at the first place at which they differ: its
/// character there has the lower code, or it ends there.
pub proof fn law_order_is_told_by_the_first_difference(a: Seq<char>, b: Seq<char>)
    ensures
        lex_lt(a, b) <==> exists|k: int|
            0 <= k <= a.len() && k < b.len() && #[trigger] a.take(k) == b.take(k) && (k == a.len() || a[k] < b[k]),
    decreases a.len(),
{
    let fits = |k: int|
        0 <= k <= a.len() && k < b.len() && a.take(k) == b.take(k) && (k == a.len() || a[k] < b[k]);
    if a.len() > 0 && b.len() > 0 && a[0] == b[0] {
        let x = a.drop_first();
        let y = b.drop_first();
        law_order_is_told_by_the_first_difference(x, y);
        if lex_lt(x, y) {
            let k = choose|k: int|
                0 <= k <= x.len() && k < y.len() && #[trigger] x.take(k) == y.take(k) && (k == x.len() || x[k] < y[k]);
            assert(a.take(k + 1) =~= seq![a[0]] + x.take(k));
            assert(b.take(k + 1) =~= seq![b[0]] + y.take(k));
            assert(fits(k + 1));
            assert(a.take(k + 1) == b.take(k + 1));
        }
        if exists|k: int|
            0 <= k <= a.len() && k < b.len() && #[trigger] a.take(k) == b.take(k) && (k == a.len() || a[k] < b[k]) {
            let k = choose|k: int|
                0 <= k <= a.len() && k < b.len() && #[trigger] a.take(k) == b.take(k) && (k == a.len() || a[k] < b[k]);
            assert(k > 0);
            assert(x.take(k - 1) =~= a.take(k).drop_first());
            assert(y.take(k - 1) =~= b.take(k).drop_first());
            assert(x.take(k - 1) == y.take(k - 1));
        }
    } else {
        if lex_lt(a, b) {
            assert(a.take(0) =~= b.take(0));
            assert(fits(0));
        }
        if exists|k: int|
            0 <= k <= a.len() && k < b.len() && #[trigger] a.take(k) == b.take(k) && (k == a.len() || a[k] < b[k]) {
            let k = choose|k: int|
                0 <= k <= a.len() && k < b.len() && #[trigger] a.take(k) == b.take(k) && (k == a.len() || a[k] < b[k]);
            if k > 0 {
                assert(a.take(k)[0] == b.take(k)[0]);
            }
        }
    }
}

/// A text begins with another exactly where something, or nothing, put behind the other gives it;
/// and likewise for its end.
pub proof fn law_prefix_and_rest(s: Seq<char>, p: Seq<char>, rest: Seq<char>)
    ensures
        has_prefix(p + rest, p),
        has_suffix(rest + p, p),
        has_prefix(s, p) ==> s == p + s.skip(p.len() as int),
        has_suffix(s, p) ==> s == s.take(s.len() - p.len()) + p,
{
    assert((p + rest).take(p.len() as int) =~= p);
    assert((rest + p).skip((rest + p).len() - p.len()) =~= p);
    if has_prefix(s, p) {
        assert(s =~= p + s.skip(p.len() as int));
    }
    if has_suffix(s, p) {
        assert(s =~= s.take(s.len() - p.len()) + p);
    }
}

/// Stripping a text from the front takes it away as often as it stands there and no further; and
/// likewise at the back.
pub proof fn law_stripping_takes_all(s: Seq<char>, p: Seq<char>)
    requires
        p.len() > 0,
    ensures
        strip_front(p + s, p) == strip_front(s, p),
        !has_prefix(s, p) ==> strip_front(s, p) == s,
        strip_back(s + p, p) == strip_back(s, p),
        !has_suffix(s, p) ==> strip_back(s, p) == s,
{
    law_prefix_and_rest(s, p, s);
    assert((p + s).skip(p.len() as int) =~= s);
    assert((s + p).take((s + p).len() - p.len()) =~= s);
}

/// Trimming takes away white space at both ends and nothing else: what is left stands in the text
/// with white space alone before and behind it, and neither begins nor ends with any.
pub proof fn law_trimming_takes_white_space(s: Seq<char>) -> (r: (int, int))
    ensures
        0 <= r.0 <= r.1 <= s.len(),
        trimmed(s) == s.subrange(r.0, r.1),
        forall|i: int| 0 <= i < r.0 ==> is_space(#[trigger] s[i]),
        forall|i: int| r.1 <= i < s.len() ==> is_space(#[trigger] s[i]),
        r.0 < r.1 ==> !is_space(s[r.0]) && !is_space(s[r.1 - 1]),
{
    let f = lemma_trim_front_at(s);
    let t = s.skip(f);
    let b = lemma_trim_back_at(t);
    assert(t.take(b) =~= s.subrange(f, f + b));
    assert forall|i: int| f + b <= i < s.len() implies is_space(#[trigger] s[i]) by {
        assert(t[i - f] == s[i]);
    }
    if b > 0 {
        assert(t[0] == s[f]);
        assert(t[b - 1] == s[f + b - 1]);
    }
    (f, f + b)
}

proof fn lemma_trim_front_at(s: Seq<char>) -> (f: int)
    ensures
        0 <= f <= s.len(),
        trim_front(s) == s.skip(f),
        forall|i: int| 0 <= i < f ==> is_space(#[trigger] s[i]),
        f < s.len() ==> !is_space(s[f]),
    decreases s.len(),
{
    if s.len() > 0 && is_space(s[0]) {
        let t = s.drop_first();
        let f = lemma_trim_front_at(t);
        assert(t.skip(f) =~= s.skip(f + 1));
        assert forall|i: int| 0 <= i < f + 1 implies is_space(#[trigger] s[i]) by {
            if i > 0 {
                assert(t[i - 1] == s[i]);
            }
        }
        f + 1
    } else {
        assert(s.skip(0) =~= s);
        0
    }
}

proof fn lemma_trim_back_at(s: Seq<char>) -> (b: int)
    ensures
        0 <= b <= s.len(),
        trim_back(s) == s.take(b),
        forall|i: int| b <= i < s.len() ==> is_space(#[trigger] s[i]),
        b > 0 ==> !is_space(s[b - 1]),
    decreases s.len(),
{
    if s.len() > 0 && is_space(s.last()) {
        let t = s.drop_last();
        let b = lemma_trim_back_at(t);
        assert(t.take(b) =~= s.take(b));
        assert forall|i: int| b <= i < s.len() implies is_space(#[trigger] s[i]) by {
            if i < t.len() {
                assert(t[i] == s[i]);
            }
        }
        b
    } else {
        assert(s.take(s.len() as int) =~= s);
        s.len() as int
    }
}

/// Blanks, tabs and line breaks are white space; characters that can be seen in ASCII are not.
pub proof fn law_visible_characters_are_no_space(c: char)
    ensures
        c == ' ' || c == '\t' || c == '\n' || c == '\r' ==> is_space(c),
        33 <= (c as u32) <= 126 ==> !is_space(c),
{
}

/// The pieces of a split, put together with the separator between them, are the text again, and no
/// piece holds the separator.
pub proof fn law_split_pieces_join_again(s: Seq<char>, sep: char)
    ensures
        split(s, sep).len() >= 1,
        joined(split(s, sep), seq![sep]) == s,
        forall|i: int| 0 <= i < split(s, sep).len() ==> !(#[trigger] split(s, sep)[i]).contains(sep),
    decreases s.len(),
{
    lemma_split_nonempty(s, sep);
    let all = split(s, sep);
    if s.len() == 0 {
        assert(s =~= Seq::<char>::empty());
        assert(!all[0].contains(sep));
    } else {
        let f = s.drop_last();
        lemma_split_nonempty(f, sep);
        law_split_pieces_join_again(f, sep);
        let front = split(f, sep);
        assert(s =~= f.push(s.last()));
        if s.last() == sep {
            assert(all.drop_last() =~= front);
            assert(joined(all, seq![sep]) =~= f + seq![sep] + Seq::<char>::empty());
            assert(joined(all, seq![sep]) =~= s);
            assert forall|i: int| 0 <= i < all.len() implies !(#[trigger] all[i]).contains(sep) by {
                if i < front.len() {
                    assert(all[i] == front[i]);
                }
            }
        } else {
            let last = front.last().push(s.last());
            assert(all.drop_last() =~= front.drop_last());
            if front.len() == 1 {
                assert(all =~= seq![last]);
                assert(joined(all, seq![sep]) == last);
                assert(joined(front, seq![sep]) == front[0]);
                assert(last =~= s);
            } else {
                let pre = joined(front.drop_last(), seq![sep]);
                assert(joined(front, seq![sep]) == pre + seq![sep] + front.last());
                assert(joined(all, seq![sep]) == pre + seq![sep] + last);
                assert(pre + seq![sep] + last =~= (pre + seq![sep] + front.last()).push(s.last()));
            }
            assert forall|i: int| 0 <= i < all.len() implies !(#[trigger] all[i]).contains(sep) by {
                if i < front.len() - 1 {
                    assert(all[i] == front[i]);
                } else {
                    assert(all[i] == last);
                    assert(!front[front.len() - 1].contains(sep));
                    if last.contains(sep) {
                        let k = choose|k: int| 0 <= k < last.len() && last[k] == sep;
                        assert(k < front.last().len());
                        assert(front.last()[k] == sep);
                    }
                }
            }
        }
    }
}

/// Joining puts the separator between two pieces and nowhere else.
pub proof fn law_joining_puts_the_separator_between(pieces: Seq<Seq<char>>, x: Seq<char>, sep: Seq<char>)
    ensures
        joined(Seq::empty(), sep) == Seq::<char>::empty(),
        joined(seq![x], sep) == x,
        pieces.len() > 0 ==> joined(pieces.push(x), sep) == joined(pieces, sep) + sep + x,
{
    assert(pieces.push(x).drop_last() =~= pieces);
}

/// The names along a path are its pieces that are not empty, in their order.
pub proof fn law_names_along_a_path(path: Seq<char>)
    ensures
        path_parts(path) == split(path, '/').filter(|x: Seq<char>| x.len() > 0),
{
    lemma_nonempty_filters(split(path, '/'));
}

proof fn lemma_nonempty_filters(pieces: Seq<Seq<char>>)
    ensures
        nonempty(pieces) == pieces.filter(|x: Seq<char>| x.len() > 0),
    decreases pieces.len(),
{
    reveal(Seq::filter);
    if pieces.len() > 0 {
        lemma_nonempty_filters(pieces.drop_last());
    }
}

/// Replacing changes every character that is to be replaced, and no other.
pub proof fn law_replacing_changes_each(s: Seq<char>, from: char, to: char, i: int)
    requires
        0 <= i < s.len(),
    ensures
        replaced(s, from, to).len() == s.len(),
        s[i] == from ==> replaced(s, from, to)[i] == to,
        s[i] != from ==> replaced(s, from, to)[i] == s[i],
{
}

/// Of a text with a line break the first line is what stands before it, of any other all of it;
/// each without white space around it.
pub proof fn law_first_line_ends_at_the_break(line: Seq<char>, rest: Seq<char>)
    requires
        !line.contains('\n'),
    ensures
        first_line(line + seq!['\n'] + rest) == trimmed(line),
        first_line(line) == trimmed(line),
{
    let s = line + seq!['\n'] + rest;
    lemma_find(s, '\n');
    lemma_find(line, '\n');
    let k = find(s, '\n');
    assert(s[line.len() as int] == '\n');
    if k < line.len() {
        assert(s[k] == line[k]);
        assert(line.contains('\n'));
    }
    assert(s.contains('\n'));
    assert(k == line.len());
    assert(s.take(k) =~= line);
    assert(line.take(find(line, '\n')) =~= line);
}

/// A number is written with the digits of its value in base ten, the highest first.
pub proof fn law_decimal_digits(n: nat, d: nat)
    requires
        d < 10,
    ensures
        decimal(d) == seq![((48 + d) as u8) as char],
        n > 0 ==> decimal(10 * n + d) == decimal(n).push(((48 + d) as u8) as char),
{
    if n > 0 {
        assert((10 * n + d) / 10 == n && (10 * n + d) % 10 == d);
    }
}

/// Only digits, with one plus sign before them or none, stand for a number, and only up to the
/// limit of the type.
pub proof fn law_numbers_are_digits(s: Seq<char>)
    ensures
        u64_value(s) is Some ==> s.len() > 0,
        u64_value(s) is Some ==> forall|i: int|
            0 <= i < s.len() ==> 48 <= (#[trigger] s[i] as u32) <= 57 || (i == 0 && s[i] == '+' && s.len() > 1),
{
    let t = if s.len() > 0 && s[0] == '+' {
        s.drop_first()
    } else {
        s
    };
    if u64_value(s) is Some {
        lemma_digits_only(t);
        assert forall|i: int| 0 <= i < s.len() implies 48 <= (#[trigger] s[i] as u32) <= 57 || (i == 0 && s[i] == '+'
            && s.len() > 1) by {
            if s[0] == '+' {
                if i > 0 {
                    assert(t[i - 1] == s[i]);
                }
            } else {
                assert(t[i] == s[i]);
            }
        }
    }
}

proof fn lemma_digits_only(s: Seq<char>)
    requires
        digits_value(s) is Some,
    ensures
        forall|i: int| 0 <= i < s.len() ==> 48 <= (#[trigger] s[i] as u32) <= 57,
    decreases s.len(),
{
    if s.len() > 0 {
        let f = s.drop_last();
        lemma_digits_only(f);
        assert forall|i: int| 0 <= i < s.len() implies 48 <= (#[trigger] s[i] as u32) <= 57 by {
            if i < f.len() {
                assert(f[i] == s[i]);
            }
        }
    }
}

/// Filling up with zeros keeps the value and gives at least the width.
pub proof fn law_zeros_keep_the_value(s: Seq<char>, width: nat)
    ensures
        zero_padded(s, width).len() == (if s.len() >= width {
            s.len()
        } else {
            width
        }),
        digits_value(zero_padded(s, width)) == digits_value(s),
        has_suffix(zero_padded(s, width), s),
{
    if s.len() < width {
        let k = (width - s.len()) as nat;
        let z = Seq::new(k, |i: int| '0');
        lemma_zeros_front(z, s);
        assert((z + s).skip((z + s).len() - s.len()) =~= s);
    } else {
        assert(s.skip(s.len() - s.len()) =~= s);
    }
}

proof fn lemma_zeros_front(z: Seq<char>, s: Seq<char>)
    requires
        forall|i: int| 0 <= i < z.len() ==> #[trigger] z[i] == '0',
    ensures
        digits_value(z + s) == digits_value(s),
    decreases z.len() + s.len(),
{
    if s.len() > 0 {
        assert((z + s).drop_last() =~= z + s.drop_last());
        lemma_zeros_front(z, s.drop_last());
    } else if z.len() > 0 {
        let f = z.drop_last();
        assert forall|i: int| 0 <= i < f.len() implies #[trigger] f[i] == '0' by {
            assert(f[i] == z[i]);
        }
        lemma_zeros_front(f, s);
        assert(z + s =~= z);
        assert(f + s =~= f);
        assert(z[z.len() - 1] == '0');
        assert(digits_value(s) == Some(0nat));
    } else {
        assert(z + s =~= s);
    }
}

/// A negative number is written as its size behind a minus sign.
pub proof fn law_negative_numbers_have_a_sign(i: int)
    ensures
        i >= 0 ==> signed_decimal(i) == decimal(i as nat),
        i < 0 ==> signed_decimal(i) == seq!['-'] + decimal((-i) as nat),
{
    reveal_strlit("-");
    assert("-"@ =~= seq!['-']);
}

/// The pieces that are not empty.
pub proof fn lemma_nonempty_contains(pieces: Seq<Seq<char>>, x: Seq<char>)
    ensures
        nonempty(pieces).contains(x) <==> pieces.contains(x) && x.len() > 0,
    decreases pieces.len(),
{
    if pieces.len() > 0 {
        let f = pieces.drop_last();
        lemma_nonempty_contains(f, x);
        assert(pieces =~= f.push(pieces.last()));
        if pieces.contains(x) {
            let k = choose|k: int| 0 <= k < pieces.len() && pieces[k] == x;
            if k < f.len() {
                assert(f[k] == x);
            }
        }
        if f.contains(x) {
            let k = choose|k: int| 0 <= k < f.len() && f[k] == x;
            assert(pieces[k] == x);
        }
        assert(pieces[pieces.len() - 1] == pieces.last());
        if pieces.last().len() > 0 {
            let r = nonempty(pieces);
            let n = nonempty(f);
            if r.contains(x) {
                let k = choose|k: int| 0 <= k < r.len() && r[k] == x;
                if k < n.len() {
                    assert(n[k] == x);
                }
            }
            if n.contains(x) {
                let k = choose|k: int| 0 <= k < n.len() && n[k] == x;
                assert(r[k] == x);
            }
            assert(r[r.len() - 1] == pieces.last());
        }
    }
}

/// A row of digits stands for ten times what the row without its last digit stands for, and that
/// digit; anything else in it, and it stands for nothing. As a number it may have a plus sign.
pub proof fn law_digits_stand_for_their_value(s: Seq<char>, c: char)
    ensures
        digits_value(Seq::empty()) == Some(0nat),
        digits_value(s) is Some && 48 <= (c as u32) <= 57 ==> digits_value(s.push(c)) == Some(
            (10 * digits_value(s)->0 + ((c as u32) - 48)) as nat,
        ),
        !(48 <= (c as u32) <= 57) ==> digits_value(s.push(c)) is None,
        digits_value(s) is None ==> digits_value(s.push(c)) is None,
        s.len() > 0 && s[0] != '+' && digits_value(s) is Some && digits_value(s)->0 <= u64::MAX ==> u64_value(s) == Some(
            digits_value(s)->0 as u64,
        ) && u64_value(seq!['+'] + s) == u64_value(s),
        digits_value(s) is Some && digits_value(s)->0 > u64::MAX && s.len() > 0 && s[0] != '+' ==> u64_value(s) is None,
{
    assert(s.push(c).drop_last() =~= s);
    let p = seq!['+'] + s;
    assert(p.drop_first() =~= s);
}

/// White space is what Unicode calls so: 25 characters, told by their codes.
pub proof fn law_white_space_by_its_codes(c: char)
    ensures
        is_space(c) <==> {
            let n = c as u32;
            9 <= n <= 13 || n == 32 || n == 133 || n == 160 || n == 5760 || 8192 <= n <= 8202 || n == 8232 || n == 8233
                || n == 8239 || n == 8287 || n == 12288
        },
{
}

/// Two dots stand side by side in a text exactly where it is two dots with something, or nothing,
/// on either side.
pub proof fn law_two_dots_side_by_side(s: Seq<char>, a: Seq<char>, b: Seq<char>)
    ensures
        has_dot_dot(a + seq!['.', '.'] + b),
        has_dot_dot(s) ==> exists|i: int| 0 <= i && i + 2 <= s.len() && #[trigger] s.subrange(i, i + 2) == seq!['.', '.'],
{
    let t = a + seq!['.', '.'] + b;
    let k = a.len() as int;
    assert(t[k] == '.' && t[k + 1] == '.');
    if has_dot_dot(s) {
        let i = choose|i: int| 0 <= i && i + 1 < s.len() && #[trigger] s[i] == '.' && s[i + 1] == '.';
        assert(s.subrange(i, i + 2) =~= seq!['.', '.']);
    }
}

} // verus!

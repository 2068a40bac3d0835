//! Language lock: drop out-of-network posts whose language does not match the viewer's.
use vstd::prelude::*;
use vstd::string::*;
use crate::candidate::{in_network, spec_in_network, PostCandidate};

verus! {

/// The characters of Unicode's White_Space property, which `str::trim` removes.
pub open spec fn is_white_space(c: char) -> bool {
    ||| ('\u{9}' <= c && c <= '\u{d}')
    ||| c == ' '
    ||| c == '\u{85}'
    ||| c == '\u{a0}'
    ||| c == '\u{1680}'
    ||| ('\u{2000}' <= c && c <= '\u{200a}')
    ||| c == '\u{2028}'
    ||| c == '\u{2029}'
    ||| c == '\u{202f}'
    ||| c == '\u{205f}'
    ||| c == '\u{3000}'
}

/// `s` without its leading white space.
pub open spec fn trim_start(s: Seq<char>) -> Seq<char>
    decreases s.len(),
{
    if s.len() > 0 && is_white_space(s[0]) {
        trim_start(s.drop_first())
    } else {
        s
    }
}

/// `s` without its trailing white space.
pub open spec fn trim_end(s: Seq<char>) -> Seq<char>
    decreases s.len(),
{
    if s.len() > 0 && is_white_space(s.last()) {
        trim_end(s.drop_last())
    } else {
        s
    }
}

/// `s` without leading and trailing white space, as `str::trim` gives it.
pub open spec fn trim(s: Seq<char>) -> Seq<char> {
    trim_end(trim_start(s))
}

/// A language tag's separators between its subtags.
pub open spec fn is_subtag_separator(c: char) -> bool {
    c == '-' || c == '_'
}

/// The primary subtag of a language tag: everything before the first `-` or `_`.
pub open spec fn primary_subtag(s: Seq<char>) -> Seq<char>
    decreases s.len(),
{
    if s.len() == 0 || is_subtag_separator(s[0]) {
        Seq::empty()
    } else {
        seq![s[0]] + primary_subtag(s.drop_first())
    }
}

/// The code of a character once ASCII upper-case letters are made lower case.
pub open spec fn ascii_fold(c: char) -> u32 {
    if 'A' <= c && c <= 'Z' {
        (c as u32 + 32) as u32
    } else {
        c as u32
    }
}

/// The two strings are equal once ASCII letters are made lower case.
pub open spec fn eq_ignore_ascii_case(a: Seq<char>, b: Seq<char>) -> bool {
    a.len() == b.len() && forall|i: int| 0 <= i < a.len() ==> ascii_fold(#[trigger] a[i]) == ascii_fold(b[i])
}

/// The viewer's and the post's languages match: either is empty once trimmed, or
/// their primary subtags are equal ignoring ASCII case.
pub open spec fn spec_languages_match(viewer: Seq<char>, post: Seq<char>) -> bool {
    let v = trim(viewer);
    let p = trim(post);
    v.len() == 0 || p.len() == 0 || eq_ignore_ascii_case(primary_subtag(v), primary_subtag(p))
}

fn white_space(c: char) -> (r: bool)
    ensures
        r == is_white_space(c),
{
    ('\u{9}' <= c && c <= '\u{d}') || c == ' ' || c == '\u{85}' || c == '\u{a0}' || c == '\u{1680}'
        || ('\u{2000}' <= c && c <= '\u{200a}') || c == '\u{2028}' || c == '\u{2029}' || c
        == '\u{202f}' || c == '\u{205f}' || c == '\u{3000}'
}

fn fold(c: char) -> (r: u32)
    ensures
        r == ascii_fold(c),
{
    if 'A' <= c && c <= 'Z' {
        (c as u32) + 32
    } else {
        c as u32
    }
}

fn chars_of(s: &str) -> (v: Vec<char>)
    ensures
        v@ == s@,
{
    let n = s.unicode_len();
    let mut v: Vec<char> = Vec::new();
    for i in 0..n
        invariant
            n == s@.len(),
            v@ == s@.take(i as int),
    {
        let c = s.get_char(i);
        v.push(c);
        assert(v@ =~= s@.take(i + 1));
    }
    assert(v@ =~= s@);
    v
}

/// The bounds `a..b` of `v` once trimmed, and the end `c` of its primary subtag.
fn trimmed_subtag(v: &Vec<char>) -> (r: (usize, usize, usize))
    ensures
        r.0 <= r.2 <= r.1 <= v@.len(),
        trim(v@) == v@.subrange(r.0 as int, r.1 as int),
        primary_subtag(trim(v@)) == v@.subrange(r.0 as int, r.2 as int),
{
    let n = v.len();
    let mut a: usize = 0;
    assert(v@.subrange(0, n as int) =~= v@);
    while a < n && white_space(v[a])
        invariant
            a <= n == v@.len(),
            trim_start(v@) == trim_start(v@.subrange(a as int, n as int)),
        decreases n - a,
    {
        assert(v@.subrange(a as int, n as int).drop_first() =~= v@.subrange(a + 1, n as int));
        a = a + 1;
    }
    assert(trim_start(v@) == v@.subrange(a as int, n as int));
    let mut b: usize = n;
    while b > a && white_space(v[b - 1])
        invariant
            a <= b <= n == v@.len(),
            trim(v@) == trim_end(v@.subrange(a as int, b as int)),
        decreases b,
    {
        assert(v@.subrange(a as int, b as int).drop_last() =~= v@.subrange(a as int, b - 1));
        b = b - 1;
    }
    assert(trim(v@) == v@.subrange(a as int, b as int));
    let mut c: usize = a;
    assert(v@.subrange(a as int, a as int) =~= Seq::<char>::empty());
    assert(v@.subrange(a as int, b as int) =~= v@.subrange(a as int, a as int) + v@.subrange(
        a as int,
        b as int,
    ));
    while c < b && v[c] != '-' && v[c] != '_'
        invariant
            a <= c <= b <= v@.len(),
            primary_subtag(v@.subrange(a as int, b as int)) == v@.subrange(a as int, c as int)
                + primary_subtag(v@.subrange(c as int, b as int)),
        decreases b - c,
    {
        assert(v@.subrange(c as int, b as int).drop_first() =~= v@.subrange(c + 1, b as int));
        assert(v@.subrange(a as int, c + 1) =~= v@.subrange(a as int, c as int) + seq![v@[c as int]]);
        c = c + 1;
    }
    assert(primary_subtag(v@.subrange(c as int, b as int)) =~= Seq::<char>::empty());
    assert(v@.subrange(a as int, c as int) + Seq::<char>::empty() =~= v@.subrange(a as int, c as int));
    (a, b, c)
}

/// Whether a viewer with language `viewer` reads posts in language `post`:
/// true when either is empty once trimmed, else whether their primary subtags
/// (before any `-` or `_`) are equal ignoring ASCII case.
pub fn languages_match(viewer: &str, post: &str) -> (r: bool)
    ensures
        r == spec_languages_match(viewer@, post@),
{
    let v = chars_of(viewer);
    let p = chars_of(post);
    let (va, vb, vc) = trimmed_subtag(&v);
    let (pa, pb, pc) = trimmed_subtag(&p);
    if va == vb || pa == pb {
        return true;
    }
    if vc - va != pc - pa {
        return false;
    }
    let len = vc - va;
    let ghost vs = v@.subrange(va as int, vc as int);
    let ghost ps = p@.subrange(pa as int, pc as int);
    for i in 0..len
        invariant
            len == vc - va == pc - pa,
            v@ == viewer@,
            p@ == post@,
            trim(viewer@).len() > 0,
            trim(post@).len() > 0,
            vs == primary_subtag(trim(viewer@)),
            ps == primary_subtag(trim(post@)),
            va <= vc <= v@.len(),
            pa <= pc <= p@.len(),
            vs == v@.subrange(va as int, vc as int),
            ps == p@.subrange(pa as int, pc as int),
            forall|q: int| 0 <= q < i ==> ascii_fold(#[trigger] vs[q]) == ascii_fold(ps[q]),
    {
        if fold(v[va + i]) != fold(p[pa + i]) {
            assert(vs[i as int] == v@[va + i]);
            assert(ps[i as int] == p@[pa + i]);
            return false;
        }
        assert(vs[i as int] == v@[va + i]);
        assert(ps[i as int] == p@[pa + i]);
    }
    true
}

/// What the language lock keeps: in-network posts, posts of unknown language, and
/// posts whose language matches the viewer's.
pub open spec fn lock_keeps(viewer: Seq<char>, c: PostCandidate) -> bool {
    spec_in_network(c) || match c.language_code {
        None => true,
        Some(code) => spec_languages_match(viewer, code@),
    }
}

/// The posts a filter kept and those it removed.
#[derive(Debug)]
pub struct FilterResult {
    pub kept: Vec<PostCandidate>,
    pub removed: Vec<PostCandidate>,
}

/// Drops out-of-network posts whose language does not match the viewer.
/// In-network posts and posts with unknown language are kept.
#[derive(Clone, Copy, Debug)]
pub struct LanguageLockFilter;

impl LanguageLockFilter {
    /// The lock runs when it is switched on and the viewer's language is known.
    pub fn enable(&self, language_lock: bool, language_code: &str) -> (r: bool)
        ensures
            r == (language_lock && trim(language_code@).len() > 0),
    {
        if !language_lock {
            return false;
        }
        let v = chars_of(language_code);
        let (a, b, _c) = trimmed_subtag(&v);
        a < b
    }

    /// Splits the posts into those the lock keeps and those it removes, each in
    /// the given order.
    pub fn filter(&self, language_code: &str, candidates: Vec<PostCandidate>) -> (r: FilterResult)
        ensures
            r.kept@ == candidates@.filter(|c: PostCandidate| lock_keeps(language_code@, c)),
            r.removed@ == candidates@.filter(|c: PostCandidate| !lock_keeps(language_code@, c)),
    {
        let ghost orig = candidates@;
        let mut rest = candidates;
        let mut kept: Vec<PostCandidate> = Vec::new();
        let mut removed: Vec<PostCandidate> = Vec::new();
        let n = rest.len();
        assert(orig.take(0) =~= Seq::<PostCandidate>::empty());
        while rest.len() > 0
            invariant
                n == orig.len(),
                rest.len() <= n,
                rest@ == orig.skip(n - rest.len()),
                kept@ == orig.take(n - rest.len()).filter(
                    |c: PostCandidate| lock_keeps(language_code@, c),
                ),
                removed@ == orig.take(n - rest.len()).filter(
                    |c: PostCandidate| !lock_keeps(language_code@, c),
                ),
            decreases rest.len(),
        {
            let ghost i = n - rest.len();
            let c = rest.remove(0);
            assert(c == orig[i]);
            proof {
                reveal_with_fuel(Seq::<_>::filter, 1);
                assert(orig.take(i + 1).drop_last() =~= orig.take(i));
                assert(rest@ =~= orig.skip(i + 1));
            }
            let keeps = in_network(&c) || match &c.language_code {
                None => true,
                Some(code) => languages_match(language_code, code.as_str()),
            };
            if keeps {
                kept.push(c);
            } else {
                removed.push(c);
            }
        }
        assert(orig.take(n as int) =~= orig);
        FilterResult { kept, removed }
    }
}


/// Language matching is symmetric.
pub proof fn lemma_languages_match_symmetric(a: Seq<char>, b: Seq<char>)
    ensures
        spec_languages_match(a, b) == spec_languages_match(b, a),
{
}

/// Every language matches itself.
pub proof fn lemma_languages_match_reflexive(a: Seq<char>)
    ensures
        spec_languages_match(a, a),
{
}

/// The language lock splits the posts: every post is either kept or removed.
pub proof fn lemma_lock_partition(viewer: Seq<char>, s: Seq<PostCandidate>)
    ensures
        s.filter(|c: PostCandidate| lock_keeps(viewer, c)).len() + s.filter(
            |c: PostCandidate| !lock_keeps(viewer, c),
        ).len() == s.len(),
    decreases s.len(),
{
    reveal_with_fuel(Seq::<_>::filter, 1);
    if s.len() > 0 {
        lemma_lock_partition(viewer, s.drop_last());
    }
}


/// The lock never removes an in-network post or a post of unknown language.
pub proof fn lemma_lock_keeps_follows_and_unknown(viewer: Seq<char>, s: Seq<PostCandidate>, i: int)
    requires
        0 <= i < s.len(),
        spec_in_network(s[i]) || s[i].language_code is None,
    ensures
        s.filter(|c: PostCandidate| lock_keeps(viewer, c)).contains(s[i]),
        !s.filter(|c: PostCandidate| !lock_keeps(viewer, c)).contains(s[i]),
{
    broadcast use vstd::seq_lib::group_filter_ensures;

    let removed = s.filter(|c: PostCandidate| !lock_keeps(viewer, c));
    if removed.contains(s[i]) {
        let q = choose|q: int| 0 <= q < removed.len() && removed[q] == s[i];
        assert(!lock_keeps(viewer, removed[q]));
    }
}


proof fn lemma_filter_all_kept(x: Seq<PostCandidate>, viewer: Seq<char>)
    requires
        forall|i: int| 0 <= i < x.len() ==> lock_keeps(viewer, #[trigger] x[i]),
    ensures
        x.filter(|c: PostCandidate| lock_keeps(viewer, c)) == x,
        x.filter(|c: PostCandidate| !lock_keeps(viewer, c)).len() == 0,
    decreases x.len(),
{
    reveal_with_fuel(Seq::<_>::filter, 1);
    if x.len() > 0 {
        let init = x.drop_last();
        assert forall|i: int| 0 <= i < init.len() implies lock_keeps(viewer, #[trigger] init[i]) by {
            assert(init[i] == x[i]);
        }
        lemma_filter_all_kept(init, viewer);
        assert(lock_keeps(viewer, x[x.len() - 1]));
        assert(init.push(x.last()) =~= x);
    }
}

/// Locking twice drops nothing more: the kept posts pass the lock again, all of
/// them, in the same order.
pub proof fn lemma_lock_idempotent(viewer: Seq<char>, s: Seq<PostCandidate>)
    ensures
        s.filter(|c: PostCandidate| lock_keeps(viewer, c)).filter(
            |c: PostCandidate| lock_keeps(viewer, c),
        ) == s.filter(|c: PostCandidate| lock_keeps(viewer, c)),
        s.filter(|c: PostCandidate| lock_keeps(viewer, c)).filter(
            |c: PostCandidate| !lock_keeps(viewer, c),
        ).len() == 0,
{
    broadcast use vstd::seq_lib::group_filter_ensures;

    let kept = s.filter(|c: PostCandidate| lock_keeps(viewer, c));
    assert forall|i: int| 0 <= i < kept.len() implies lock_keeps(viewer, #[trigger] kept[i]) by {
        assert((|c: PostCandidate| lock_keeps(viewer, c))(kept[i]));
    }
    lemma_filter_all_kept(kept, viewer);
}

} // verus!

//! URL normalization used to detect duplicate bookmarks.

use vstd::prelude::*;
use crate::text::{lower, lower_chars, trim, trimmed};

verus! {

/// `s` without its trailing slashes.
pub open spec fn strip_slashes(s: Seq<char>) -> Seq<char>
    decreases s.len(),
{
    if s.len() > 0 && s.last() == '/' {
        strip_slashes(s.drop_last())
    } else {
        s
    }
}

/// The position of the first "://" in `t` at or after `i`, or -1.
pub open spec fn scheme_sep(t: Seq<char>, i: int) -> int
    decreases t.len() - i,
{
    if i < 0 || i + 3 > t.len() {
        -1
    } else if t[i] == ':' && t[i + 1] == '/' && t[i + 2] == '/' {
        i
    } else {
        scheme_sep(t, i + 1)
    }
}

/// The position of the first '/' in `t` at or after `i`, or the length of `t`.
pub open spec fn slash_from(t: Seq<char>, i: int) -> int
    decreases t.len() - i,
{
    if i < 0 || i >= t.len() {
        t.len() as int
    } else if t[i] == '/' {
        i
    } else {
        slash_from(t, i + 1)
    }
}

/// Where the scheme and host of `t` end: the first '/' after "://", or the
/// end of `t`; 0 when `t` has no scheme.
pub open spec fn authority_end(t: Seq<char>) -> int {
    let k = scheme_sep(t, 0);
    if k < 0 {
        0
    } else {
        slash_from(t, k + 3)
    }
}

/// The normalized form of a URL: surrounding whitespace removed, scheme and
/// host in ASCII lower case, and trailing slashes removed, so that
/// `HTTP://X.com/` and `http://x.com` compare equal. The path keeps its case.
pub open spec fn normalize(s: Seq<char>) -> Seq<char> {
    let t = trim(s);
    let e = authority_end(t);
    strip_slashes(lower(t.subrange(0, e)) + t.subrange(e, t.len() as int))
}

proof fn lemma_scheme_sep_range(t: Seq<char>, i: int)
    requires
        0 <= i,
    ensures
        scheme_sep(t, i) == -1 || (i <= scheme_sep(t, i) && scheme_sep(t, i) + 3 <= t.len()),
    decreases t.len() - i,
{
    if i + 3 <= t.len() && !(t[i] == ':' && t[i + 1] == '/' && t[i + 2] == '/') {
        lemma_scheme_sep_range(t, i + 1);
    }
}

proof fn lemma_slash_from_range(t: Seq<char>, i: int)
    requires
        0 <= i <= t.len(),
    ensures
        i <= slash_from(t, i) <= t.len(),
    decreases t.len() - i,
{
    if i < t.len() && t[i] != '/' {
        lemma_slash_from_range(t, i + 1);
    }
}

/// Where the scheme and host of `t` end, as `authority_end` says.
pub fn authority_end_of(t: &Vec<char>) -> (r: usize)
    ensures
        r as int == authority_end(t@),
        r <= t@.len(),
{
    let n = t.len();
    let mut i: usize = 0;
    let mut found = false;
    while !found && i < n && n - i >= 3
        invariant
            n == t@.len(),
            0 <= i <= n,
            found ==> scheme_sep(t@, 0) == i && i + 3 <= n,
            !found ==> scheme_sep(t@, 0) == scheme_sep(t@, i as int),
        decreases n - i, (if found { 0int } else { 1int }),
    {
        if t[i] == ':' && t[i + 1] == '/' && t[i + 2] == '/' {
            found = true;
        } else {
            i = i + 1;
        }
    }
    if !found {
        assert(scheme_sep(t@, i as int) == -1);
        return 0;
    }
    let mut j: usize = i + 3;
    while j < n && t[j] != '/'
        invariant
            n == t@.len(),
            i + 3 <= j <= n,
            scheme_sep(t@, 0) == i,
            slash_from(t@, i + 3) == slash_from(t@, j as int),
        decreases n - j,
    {
        j = j + 1;
    }
    j
}

/// The normalized form of `url`, as characters.
pub fn normalize_url(url: &str) -> (r: Vec<char>)
    ensures
        r@ == normalize(url@),
{
    let cs = crate::text::chars_of(url);
    let tr = trimmed(&cs);
    let e = authority_end_of(&tr);
    let mut head: Vec<char> = Vec::new();
    let mut k: usize = 0;
    while k < e
        invariant
            0 <= k <= e <= tr@.len(),
            head@ == tr@.subrange(0, k as int),
        decreases e - k,
    {
        head.push(tr[k]);
        k = k + 1;
        assert(head@ =~= tr@.subrange(0, k as int));
    }
    let mut t = lower_chars(&head);
    let ghost low = t@;
    let mut m: usize = e;
    while m < tr.len()
        invariant
            e <= m <= tr@.len(),
            t@ == low + tr@.subrange(e as int, m as int),
        decreases tr@.len() - m,
    {
        t.push(tr[m]);
        m = m + 1;
        assert(t@ =~= low + tr@.subrange(e as int, m as int));
    }
    let ghost full = t@;
    assert(full == lower(trim(url@).subrange(0, authority_end(trim(url@)))) + trim(url@).subrange(
        authority_end(trim(url@)),
        trim(url@).len() as int,
    ));
    while t.len() > 0 && t[t.len() - 1] == '/'
        invariant
            strip_slashes(full) == strip_slashes(t@),
        decreases t.len(),
    {
        let ghost before = t@;
        t.pop();
        assert(t@ =~= before.drop_last());
    }
    t
}

/// Whether two character sequences are equal.
pub fn same_chars(a: &Vec<char>, b: &Vec<char>) -> (r: bool)
    ensures
        r == (a@ == b@),
{
    if a.len() != b.len() {
        return false;
    }
    let mut i: usize = 0;
    while i < a.len()
        invariant
            0 <= i <= a@.len(),
            a@.len() == b@.len(),
            forall|k: int| 0 <= k < i ==> a@[k] == b@[k],
        decreases a@.len() - i,
    {
        if a[i] != b[i] {
            return false;
        }
        i = i + 1;
    }
    assert(a@ =~= b@);
    true
}

} // verus!

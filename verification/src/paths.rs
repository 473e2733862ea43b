//! Endpoint path normalization.
//!
//! Paths with dynamic segments are collapsed to their route templates
//! before they are used as metric keys, so the endpoint maps stay bounded
//! by the number of route templates rather than the number of distinct
//! requested paths.

use vstd::prelude::*;

verus! {

/// The first position at or after `from` holding `c`, or the length when
/// there is none.
pub open spec fn find_char(s: Seq<char>, from: int, c: char) -> int
    decreases s.len() - from,
    when 0 <= from <= s.len()
{
    if from >= s.len() {
        s.len() as int
    } else if s[from] == c {
        from
    } else {
        find_char(s, from + 1, c)
    }
}

/// The route template a path collapses to: the second `/`-separated
/// segment decides, and a template applies only when a third segment
/// exists (even an empty one). The cookie action keeps its own name; any
/// other path is kept verbatim.
pub open spec fn spec_normalize_path(s: Seq<char>) -> Seq<char> {
    let i1 = find_char(s, 0, '/');
    if i1 == s.len() {
        s
    } else {
        let i2 = find_char(s, i1 + 1, '/');
        if i2 == s.len() {
            s
        } else {
            let seg1 = s.subrange(i1 + 1, i2);
            if seg1 == "status"@ {
                "/status/:code"@
            } else if seg1 == "delay"@ {
                "/delay/:n"@
            } else if seg1 == "redirect"@ {
                "/redirect/:n"@
            } else if seg1 == "cookies"@ {
                "/cookies/"@ + s.subrange(i2 + 1, find_char(s, i2 + 1, '/'))
            } else if seg1 == "anything"@ {
                "/anything/*path"@
            } else {
                s
            }
        }
    }
}

proof fn lemma_find_char_is(s: Seq<char>, from: int, r: int, c: char)
    requires
        0 <= from <= r <= s.len(),
        forall|j: int| from <= j < r ==> s[j] != c,
        r < s.len() ==> s[r] == c,
    ensures
        find_char(s, from, c) == r,
    decreases r - from,
{
    if from < r {
        lemma_find_char_is(s, from + 1, r, c);
    }
}

/// Finds the first `/` at or after `from`, in character positions.
fn find_slash(path: &str, from: usize) -> (r: usize)
    requires
        from <= path@.len(),
    ensures
        from <= r <= path@.len(),
        r as int == find_char(path@, from as int, '/'),
{
    let n = path.unicode_len();
    let mut i: usize = from;
    while i < n
        invariant
            from <= i <= n,
            n == path@.len(),
            forall|j: int| from <= j < i ==> path@[j] != '/',
        decreases n - i,
    {
        if path.get_char(i) == '/' {
            proof {
                lemma_find_char_is(path@, from as int, i as int, '/');
            }
            return i;
        }
        i = i + 1;
    }
    proof {
        lemma_find_char_is(path@, from as int, n as int, '/');
    }
    n
}

/// Compares the characters of `path` in `[start, end)` with `pat`.
fn seg_eq(path: &str, start: usize, end: usize, pat: &str) -> (r: bool)
    requires
        start <= end <= path@.len(),
    ensures
        r == (path@.subrange(start as int, end as int) == pat@),
{
    let plen = pat.unicode_len();
    if end - start != plen {
        proof {
            assert(path@.subrange(start as int, end as int).len() == end - start);
        }
        return false;
    }
    let mut j: usize = 0;
    while j < plen
        invariant
            j <= plen,
            plen == pat@.len(),
            start <= end <= path@.len(),
            end - start == plen,
            forall|x: int| 0 <= x < j ==> path@[start + x] == pat@[x],
        decreases plen - j,
    {
        if path.get_char(start + j) != pat.get_char(j) {
            proof {
                assert(path@.subrange(start as int, end as int)[j as int] != pat@[j as int]);
            }
            return false;
        }
        j = j + 1;
    }
    proof {
        assert(path@.subrange(start as int, end as int) =~= pat@);
    }
    true
}

/// Collapses a request path to its route template for metrics collection,
/// so dynamic values never multiply the endpoint keys.
pub fn normalize_path(path: &str) -> (r: String)
    ensures
        r@ == spec_normalize_path(path@),
{
    let n = path.unicode_len();
    let i1 = find_slash(path, 0);
    if i1 == n {
        return path.to_owned();
    }
    let i2 = find_slash(path, i1 + 1);
    if i2 == n {
        return path.to_owned();
    }
    if seg_eq(path, i1 + 1, i2, "status") {
        String::from_str("/status/:code")
    } else if seg_eq(path, i1 + 1, i2, "delay") {
        String::from_str("/delay/:n")
    } else if seg_eq(path, i1 + 1, i2, "redirect") {
        String::from_str("/redirect/:n")
    } else if seg_eq(path, i1 + 1, i2, "cookies") {
        let i3 = find_slash(path, i2 + 1);
        let action = path.substring_char(i2 + 1, i3);
        let mut r = String::from_str("/cookies/");
        r.append(action);
        r
    } else if seg_eq(path, i1 + 1, i2, "anything") {
        String::from_str("/anything/*path")
    } else {
        path.to_owned()
    }
}

} // verus!

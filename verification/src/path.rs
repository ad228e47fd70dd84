//! Pure path decomposition: splitting a slash-separated path into its first
//! component and remainder, and into a parent path and leaf name.
use vstd::prelude::*;
use vstd::string::StrSliceExecFns;

verus! {

/// The path with every leading `/` removed.
pub open spec fn trim_slashes(p: Seq<char>) -> Seq<char>
    decreases p.len(),
{
    if p.len() > 0 && p[0] == '/' {
        trim_slashes(p.skip(1))
    } else {
        p
    }
}

/// Whether the path contains a `/` at all.
pub open spec fn has_slash(p: Seq<char>) -> bool {
    exists|i: int| 0 <= i < p.len() && p[i] == '/'
}

/// The index of the first `/` of the path (meaningful only when one exists).
pub open spec fn first_slash(p: Seq<char>) -> int
    decreases p.len(),
{
    if p.len() == 0 {
        0
    } else if p[0] == '/' {
        0
    } else {
        1 + first_slash(p.skip(1))
    }
}

pub proof fn lemma_trim_slashes(p: Seq<char>)
    ensures
        trim_slashes(p).len() <= p.len(),
        trim_slashes(p).len() > 0 ==> trim_slashes(p)[0] != '/',
        exists|k: int|
            0 <= k <= p.len() && trim_slashes(p) == p.skip(k) && forall|i: int|
                0 <= i < k ==> p[i] == '/',
    decreases p.len(),
{
    if p.len() > 0 && p[0] == '/' {
        lemma_trim_slashes(p.skip(1));
        let k0 = choose|k: int|
            0 <= k <= p.skip(1).len() && trim_slashes(p.skip(1)) == p.skip(1).skip(k) && forall|
                i: int,
            | 0 <= i < k ==> p.skip(1)[i] == '/';
        assert(p.skip(1).skip(k0) =~= p.skip(k0 + 1));
        assert forall|i: int| 0 <= i < k0 + 1 implies p[i] == '/' by {
            if i >= 1 {
                assert(p.skip(1)[i - 1] == '/');
            }
        }
        assert(trim_slashes(p) == p.skip(k0 + 1));
    } else {
        assert(p.skip(0) =~= p);
        assert(trim_slashes(p) == p.skip(0) && forall|i: int| 0 <= i < 0 ==> p[i] == '/');
    }
}

pub proof fn lemma_first_slash(p: Seq<char>)
    requires
        has_slash(p),
    ensures
        0 <= first_slash(p) < p.len(),
        p[first_slash(p)] == '/',
        forall|i: int| 0 <= i < first_slash(p) ==> p[i] != '/',
    decreases p.len(),
{
    if p.len() == 0 {
    } else if p[0] == '/' {
    } else {
        let q = p.skip(1);
        let w = choose|i: int| 0 <= i < p.len() && p[i] == '/';
        assert(q[w - 1] == '/');
        lemma_first_slash(q);
        assert forall|i: int| 0 <= i < first_slash(p) implies p[i] != '/' by {
            if i >= 1 {
                assert(q[i - 1] != '/');
            }
        }
    }
}

/// Scans for the number of leading `/` characters.
fn count_leading_slashes(path: &str) -> (n: usize)
    ensures
        n <= path@.len(),
        forall|i: int| 0 <= i < n ==> path@[i] == '/',
        n < path@.len() ==> path@[n as int] != '/',
        path@.skip(n as int) == trim_slashes(path@),
{
    let len = path.unicode_len();
    let mut n: usize = 0;
    while n < len && path.get_char(n) == '/'
        invariant
            n <= len,
            len == path@.len(),
            forall|i: int| 0 <= i < n ==> path@[i] == '/',
        decreases len - n,
    {
        n += 1;
    }
    proof {
        lemma_skip_slashes(path@, n as int);
    }
    n
}

proof fn lemma_skip_slashes(p: Seq<char>, n: int)
    requires
        0 <= n <= p.len(),
        forall|i: int| 0 <= i < n ==> p[i] == '/',
        n < p.len() ==> p[n] != '/',
    ensures
        p.skip(n) == trim_slashes(p),
    decreases n,
{
    if n > 0 {
        lemma_skip_slashes(p.skip(1), n - 1);
        assert(p.skip(1).skip(n - 1) =~= p.skip(n));
    } else {
        assert(p.skip(0) =~= p);
    }
}

/// Strips any leading `/`, then returns the first `/`-delimited component of
/// the path together with the remainder after that first `/`, or no remainder
/// if the trimmed path holds a single component. An empty path yields an
/// empty component.
pub fn split_path<'a>(path: &'a str) -> (r: (&'a str, Option<&'a str>))
    ensures
        ({
            let t = trim_slashes(path@);
            if has_slash(t) {
                r.0@ == t.take(first_slash(t)) && (r.1 matches Some(rest) && rest@ == t.skip(
                    first_slash(t) + 1,
                ))
            } else {
                r.0@ == t && r.1 is None
            }
        }),
{
    let len = path.unicode_len();
    let start = count_leading_slashes(path);
    let ghost t = trim_slashes(path@);
    let mut i: usize = start;
    while i < len
        invariant
            start <= i <= len,
            len == path@.len(),
            t == trim_slashes(path@),
            path@.skip(start as int) == t,
            forall|j: int| start <= j < i ==> path@[j] != '/',
        decreases len - i,
    {
        if path.get_char(i) == '/' {
            let head = path.substring_char(start, i);
            let rest = path.substring_char(i + 1, len);
            proof {
                assert(t[i - start] == '/');
                lemma_first_slash(t);
                assert forall|j: int| 0 <= j < i - start implies t[j] != '/' by {
                    assert(path@[j + start] != '/');
                }
                assert(first_slash(t) == i - start);
                assert(head@ =~= t.take(i - start));
                assert(rest@ =~= t.skip(i - start + 1));
            }
            return (head, Some(rest));
        }
        i += 1;
    }
    let head = path.substring_char(start, len);
    proof {
        assert forall|j: int| 0 <= j < t.len() implies t[j] != '/' by {
            assert(path@[j + start] != '/');
        }
        assert(head@ =~= t);
    }
    (head, None)
}

/// The index of the last `/` of the path (meaningful only when one exists).
pub open spec fn last_slash(p: Seq<char>) -> int
    decreases p.len(),
{
    if p.len() == 0 {
        0
    } else if p[p.len() - 1] == '/' {
        p.len() - 1
    } else {
        last_slash(p.take(p.len() - 1))
    }
}

pub proof fn lemma_last_slash(p: Seq<char>)
    requires
        has_slash(p),
    ensures
        0 <= last_slash(p) < p.len(),
        p[last_slash(p)] == '/',
        forall|i: int| last_slash(p) < i < p.len() ==> p[i] != '/',
    decreases p.len(),
{
    if p.len() == 0 {
    } else if p[p.len() - 1] == '/' {
    } else {
        let q = p.take(p.len() - 1);
        let w = choose|i: int| 0 <= i < p.len() && p[i] == '/';
        assert(q[w] == '/');
        lemma_last_slash(q);
        assert forall|i: int| last_slash(p) < i < p.len() implies p[i] != '/' by {
            if i < p.len() - 1 {
                assert(q[i] != '/');
            }
        }
    }
}

/// Strips any leading `/`, then splits the path into a parent path and a leaf
/// name: everything before the last `/` (`/` itself if that prefix is empty)
/// and everything after it, or `.` as the parent if the path has no `/` at
/// all. Every input has such a split, so the result is always `Ok`.
pub fn split_parent_name<'a>(path: &'a str) -> (r: Result<(&'a str, &'a str), crate::VfsError>)
    ensures
        ({
            let t = trim_slashes(path@);
            r matches Ok(pr) && (if has_slash(t) {
                (if last_slash(t) == 0 {
                    pr.0@ == seq!['/']
                } else {
                    pr.0@ == t.take(last_slash(t))
                }) && pr.1@ == t.skip(last_slash(t) + 1)
            } else {
                pr.0@ == seq!['.'] && pr.1@ == t
            })
        }),
{
    let len = path.unicode_len();
    let start = count_leading_slashes(path);
    let ghost t = trim_slashes(path@);
    let mut i: usize = len;
    while i > start
        invariant
            start <= i <= len,
            len == path@.len(),
            t == trim_slashes(path@),
            path@.skip(start as int) == t,
            forall|j: int| i <= j < len ==> path@[j] != '/',
        decreases i,
    {
        let k = i - 1;
        if path.get_char(k) == '/' {
            let name = path.substring_char(k + 1, len);
            proof {
                assert(t[k - start] == '/');
                lemma_last_slash(t);
                assert forall|j: int| k - start < j < t.len() implies t[j] != '/' by {
                    assert(path@[j + start] != '/');
                }
                assert(last_slash(t) == k - start);
                assert(name@ =~= t.skip(k - start + 1));
            }
            if k == start {
                proof {
                    reveal_strlit("/");
                    assert("/"@ =~= seq!['/']);
                }
                return Ok(("/", name));
            } else {
                let parent = path.substring_char(start, k);
                proof {
                    assert(parent@ =~= t.take(k - start));
                }
                return Ok((parent, name));
            }
        }
        i = k;
    }
    let name = path.substring_char(start, len);
    proof {
        assert forall|j: int| 0 <= j < t.len() implies t[j] != '/' by {
            assert(path@[j + start] != '/');
        }
        assert(name@ =~= t);
        reveal_strlit(".");
        assert("."@ =~= seq!['.']);
    }
    Ok((".", name))
}

} // verus!

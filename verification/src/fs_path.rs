use vstd::prelude::*;
use vstd::string::StrSliceExecFns;

verus! {

/// The reserved control-file name as it appears after a branch segment:
/// the full remainder, leading separator included.
pub open spec fn ctl_remainder() -> Seq<char> {
    "/.branchfs_ctl"@
}

/// Does `s` begin with the two-character synthetic branch prefix `/@`?
pub open spec fn starts_branch(s: Seq<char>) -> bool {
    s.len() >= 2 && s[0] == '/' && s[1] == '@'
}

/// Index of the first `/` in `s`, or `s.len()` if `s` has none.
pub open spec fn first_slash(s: Seq<char>) -> int
    decreases s.len(),
{
    if s.len() == 0 {
        0
    } else if s[0] == '/' {
        0
    } else {
        1 + first_slash(s.skip(1))
    }
}

pub proof fn lemma_first_slash(s: Seq<char>)
    ensures
        0 <= first_slash(s) <= s.len(),
        forall|j: int| 0 <= j < first_slash(s) ==> s[j] != '/',
        first_slash(s) < s.len() ==> s[first_slash(s)] == '/',
    decreases s.len(),
{
    if s.len() == 0 {
    } else if s[0] == '/' {
    } else {
        lemma_first_slash(s.skip(1));
        assert forall|j: int| 0 <= j < first_slash(s) implies s[j] != '/' by {
            if j >= 1 {
                assert(s.skip(1)[j - 1] == s[j]);
            }
        }
        if first_slash(s) < s.len() {
            assert(s.skip(1)[first_slash(s) - 1] == s[first_slash(s)]);
        }
    }
}

/// How a virtual path is to be serviced: a transient routing decision,
/// recomputed on every request and never cached across requests.
#[derive(Debug, Clone, PartialEq, Eq)]
pub enum PathContext {
    /// The bare synthetic branch directory itself, e.g. `/@feature`.
    BranchDir(String),
    /// That branch's control file, e.g. `/@feature/.branchfs_ctl`.
    BranchCtl(String),
    /// A real path inside a branch subtree: the branch name and the
    /// remainder, which keeps its leading separator so it composes directly
    /// with the branch's on-disk root.
    BranchPath(String, String),
    /// The default view's control file.
    RootCtl,
    /// An ordinary path, resolved against whichever branch is active at the
    /// root.
    RootPath(String),
}

/// `PathContext` with each string as a character sequence.
pub enum PathContextView {
    BranchDir(Seq<char>),
    BranchCtl(Seq<char>),
    BranchPath(Seq<char>, Seq<char>),
    RootCtl,
    RootPath(Seq<char>),
}

impl View for PathContext {
    type V = PathContextView;

    open spec fn view(&self) -> PathContextView {
        match self {
            PathContext::BranchDir(n) => PathContextView::BranchDir(n@),
            PathContext::BranchCtl(n) => PathContextView::BranchCtl(n@),
            PathContext::BranchPath(n, p) => PathContextView::BranchPath(n@, p@),
            PathContext::RootCtl => PathContextView::RootCtl,
            PathContext::RootPath(p) => PathContextView::RootPath(p@),
        }
    }
}

/// What `classify_path` returns, stated over character sequences.
///
/// A path that does not begin with `/@` is an ordinary root path. Otherwise
/// the text between the prefix and the next separator is a branch name; with
/// no further separator the path is the bare branch directory. A remainder
/// that itself begins with `/@` re-classifies on its own (nested branch
/// directories are transparent aliases); a remainder equal to the reserved
/// control-file name is the branch's control file; anything else is a real
/// path inside the branch subtree.
pub open spec fn spec_classify(s: Seq<char>) -> PathContextView
    decreases s.len(),
{
    if !starts_branch(s) {
        PathContextView::RootPath(s)
    } else {
        let rest = s.skip(2);
        let k = first_slash(rest);
        if k == rest.len() {
            PathContextView::BranchDir(rest)
        } else {
            let branch = rest.take(k);
            let remainder = rest.skip(k);
            if starts_branch(remainder) {
                proof {
                    lemma_first_slash(rest);
                }
                spec_classify(remainder)
            } else if remainder == ctl_remainder() {
                PathContextView::BranchCtl(branch)
            } else {
                PathContextView::BranchPath(branch, remainder)
            }
        }
    }
}

/// Character-by-character string equality.
pub fn str_eq(a: &str, b: &str) -> (r: bool)
    ensures
        r == (a@ == b@),
{
    let na = a.unicode_len();
    let nb = b.unicode_len();
    if na != nb {
        return false;
    }
    let mut i: usize = 0;
    while i < na
        invariant
            na == a@.len(),
            na == b@.len(),
            i <= na,
            forall|j: int| 0 <= j < i ==> a@[j] == b@[j],
        decreases na - i,
    {
        if a.get_char(i) != b.get_char(i) {
            return false;
        }
        i += 1;
    }
    proof {
        assert(a@ =~= b@);
    }
    true
}

/// Index of the first `/` in `s` at or after `start`, or `s`'s length if
/// there is none.
fn find_slash_from(s: &str, start: usize) -> (r: usize)
    requires
        start <= s@.len(),
    ensures
        start <= r <= s@.len(),
        forall|j: int| start <= j < r ==> s@[j] != '/',
        r < s@.len() ==> s@[r as int] == '/',
{
    let n = s.unicode_len();
    let mut i: usize = start;
    while i < n
        invariant
            start <= i <= n,
            n == s@.len(),
            forall|j: int| start <= j < i ==> s@[j] != '/',
        decreases n - i,
    {
        if s.get_char(i) == '/' {
            return i;
        }
        i += 1;
    }
    n
}

/// Map an absolute virtual path to the routing decision it calls for.
///
/// Pure and total: every input string classifies, with no side effects and
/// no dependency on which branches exist. Nested `/@` segments are peeled
/// one per iteration, so adversarial nesting depth costs no call stack.
pub fn classify_path(path: &str) -> (r: PathContext)
    ensures
        r@ == spec_classify(path@),
{
    let mut cur: &str = path;
    loop
        invariant
            spec_classify(cur@) == spec_classify(path@),
        decreases cur@.len(),
    {
        let n = cur.unicode_len();
        if n < 2 || cur.get_char(0) != '/' || cur.get_char(1) != '@' {
            return PathContext::RootPath(cur.to_owned());
        }
        let k = find_slash_from(cur, 2);
        proof {
            lemma_first_slash(cur@.skip(2));
            assert forall|j: int| 0 <= j < k - 2 implies cur@.skip(2)[j] != '/' by {
                assert(cur@.skip(2)[j] == cur@[j + 2]);
            }
            if k < n {
                assert(cur@.skip(2)[k - 2] == cur@[k as int]);
            }
            assert(first_slash(cur@.skip(2)) == k - 2);
        }
        if k == n {
            let rest = cur.substring_char(2, n);
            proof {
                assert(rest@ =~= cur@.skip(2));
            }
            return PathContext::BranchDir(rest.to_owned());
        }
        let branch = cur.substring_char(2, k);
        let remainder = cur.substring_char(k, n);
        proof {
            assert(branch@ =~= cur@.skip(2).take(k - 2));
            assert(remainder@ =~= cur@.skip(2).skip(k - 2));
            assert(remainder@[0] == cur@[k as int]);
        }
        let rn = remainder.unicode_len();
        if rn >= 2 && remainder.get_char(1) == '@' {
            cur = remainder;
        } else if str_eq(remainder, "/.branchfs_ctl") {
            return PathContext::BranchCtl(branch.to_owned());
        } else {
            return PathContext::BranchPath(branch.to_owned(), remainder.to_owned());
        }
    }
}

/// Any path that does not begin with the synthetic prefix classifies as a
/// root path, verbatim.
pub proof fn lemma_classify_root(s: Seq<char>)
    requires
        !starts_branch(s),
    ensures
        spec_classify(s) == PathContextView::RootPath(s),
{
}

/// Nested branch directories are transparent aliases: a branch segment
/// followed by another `/@`-prefixed remainder classifies exactly as that
/// remainder alone, whatever the outer name. Applied repeatedly this peels
/// any nesting depth down to the innermost branch segment.
pub proof fn lemma_classify_nested(name: Seq<char>, rest: Seq<char>)
    requires
        forall|j: int| 0 <= j < name.len() ==> name[j] != '/',
        starts_branch(rest),
    ensures
        spec_classify(seq!['/', '@'] + name + rest) == spec_classify(rest),
{
    let s = seq!['/', '@'] + name + rest;
    assert(s[0] == '/');
    assert(s[1] == '@');
    assert(starts_branch(s));
    let tail = s.skip(2);
    assert(tail =~= name + rest);
    lemma_first_slash(tail);
    assert forall|j: int| 0 <= j < name.len() implies tail[j] != '/' by {
        assert(tail[j] == name[j]);
    }
    assert(tail[name.len() as int] == rest[0]);
    assert(first_slash(tail) == name.len());
    assert(tail.skip(name.len() as int) =~= rest);
}

} // verus!

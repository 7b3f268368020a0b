//! The sandbox: which paths a caller may reach under the root.
//!
//! Only the filesystem can tell where a path leads once links are followed,
//! so the caller of `safe_path` resolves the joined path on disk and hands
//! over what came back. The decision is made here, on the resolved forms
//! alone; the text of the request is never trusted to show an escape.

use vstd::prelude::*;
use crate::error::{AppError, ErrorKind};
use crate::paths::{
    file_name,
    file_name_of,
    is_absolute,
    is_plain_name,
    join_path,
    joined,
    lemma_file_name_is_plain,
};
use crate::text::{chars_of, optional_text};

verus! {

/// Whether a segment of `p` begins at `i`, right behind a `/`, and is empty,
/// `.` or `..`.
pub open spec fn bad_segment_at(p: Seq<char>, i: int) -> bool {
    &&& 1 <= i <= p.len()
    &&& p[i - 1] == '/'
    &&& {
        ||| i == p.len()
        ||| p[i] == '/'
        ||| (p[i] == '.' && (i + 1 == p.len() || p[i + 1] == '/'))
        ||| (p[i] == '.' && i + 1 < p.len() && p[i + 1] == '.' && (i + 2 == p.len() || p[i + 2]
            == '/'))
    }
}

/// The form in which the filesystem names a resolved path: absolute, with
/// one `/` between segments and none at the end, and without `.` or `..`.
/// The root directory itself is `/`.
pub open spec fn is_canonical(p: Seq<char>) -> bool {
    is_absolute(p) && (p.len() == 1 || forall|i: int| !bad_segment_at(p, i))
}

/// Whether the canonical path `p` is `root` or lies below it. Whole
/// segments count: `/srv/media2` is not below `/srv/media`.
pub open spec fn within(root: Seq<char>, p: Seq<char>) -> bool {
    &&& is_canonical(root)
    &&& is_canonical(p)
    &&& root.is_prefix_of(p)
    &&& (p.len() == root.len() || root.len() == 1 || p[root.len() as int] == '/')
}

fn bad_segment(p: &Vec<char>, i: usize) -> (r: bool)
    requires
        1 <= i <= p.len(),
    ensures
        r == bad_segment_at(p@, i as int),
{
    if p[i - 1] != '/' {
        return false;
    }
    if i == p.len() {
        return true;
    }
    if p[i] == '/' {
        return true;
    }
    if p[i] != '.' {
        return false;
    }
    if i + 1 == p.len() || p[i + 1] == '/' {
        return true;
    }
    p[i + 1] == '.' && (i + 2 == p.len() || p[i + 2] == '/')
}

fn canonical(p: &Vec<char>) -> (r: bool)
    ensures
        r == is_canonical(p@),
{
    if p.len() == 0 || p[0] != '/' {
        return false;
    }
    if p.len() == 1 {
        return true;
    }
    let mut i: usize = 1;
    while i < p.len()
        invariant
            1 <= i <= p.len(),
            forall|j: int| 1 <= j < i ==> !bad_segment_at(p@, j),
        decreases p.len() - i,
    {
        if bad_segment(p, i) {
            return false;
        }
        i = i + 1;
    }
    !bad_segment(p, i)
}

/// Whether `p` is a canonical path at or below the canonical path `root`.
pub fn is_within(root: &str, p: &str) -> (r: bool)
    ensures
        r == within(root@, p@),
{
    let r = chars_of(root);
    let q = chars_of(p);
    if !canonical(&r) || !canonical(&q) {
        return false;
    }
    if q.len() < r.len() {
        return false;
    }
    let mut i: usize = 0;
    while i < r.len()
        invariant
            i <= r.len() <= q.len(),
            r@ == root@,
            q@ == p@,
            forall|j: int| 0 <= j < i ==> r@[j] == q@[j],
        decreases r.len() - i,
    {
        if r[i] != q[i] {
            assert(q@.subrange(0, r@.len() as int)[i as int] != r@[i as int]);
            return false;
        }
        i = i + 1;
    }
    assert(q@.subrange(0, r@.len() as int) =~= r@);
    q.len() == r.len() || r.len() == 1 || q[r.len()] == '/'
}

/// What the filesystem said of the path that a request was joined to.
#[derive(Debug)]
pub struct PathProbe {
    /// The canonical form of the joined path; `None` where it does not
    /// resolve, as for a file that is yet to be created.
    pub canonical: Option<String>,
    /// The canonical form of the directory that is to hold the target;
    /// `None` where that directory does not exist.
    pub parent_canonical: Option<String>,
    /// Whether something exists at the joined path.
    pub exists: bool,
    /// Whether that is a regular file.
    pub is_file: bool,
    /// Whether the directory that is to hold the target exists.
    pub parent_exists: bool,
}

/// Where a request for `rel` leads, or why it is refused.
///
/// A path that resolves is accepted if it is the root or below it, and is
/// `Forbidden` otherwise. A path that does not resolve names something to
/// be created: it is accepted below a parent that exists under the root,
/// under the name that the joined path ends in, and is a `BadRequest`
/// otherwise.
pub open spec fn resolve(
    root: Seq<char>,
    rel: Seq<char>,
    canonical: Option<Seq<char>>,
    parent_canonical: Option<Seq<char>>,
) -> Result<Seq<char>, ErrorKind> {
    match canonical {
        Some(c) => if within(root, c) {
            Ok(c)
        } else {
            Err(ErrorKind::Forbidden)
        },
        None => match (parent_canonical, file_name_of(joined(root, rel))) {
            (Some(dir), Some(leaf)) => if within(root, dir) {
                Ok(joined(dir, leaf))
            } else {
                Err(ErrorKind::BadRequest)
            },
            _ => Err(ErrorKind::BadRequest),
        },
    }
}

/// The reason given with each refusal of the sandbox.
pub open spec fn refusal_reason(kind: ErrorKind) -> Seq<char> {
    if kind == ErrorKind::Forbidden {
        "Path escape blocked"@
    } else {
        "Target folder doesn't exist"@
    }
}

/// `resolve` on what a probe holds.
pub open spec fn resolve_probe(root: Seq<char>, rel: Seq<char>, probe: PathProbe) -> Result<
    Seq<char>,
    ErrorKind,
> {
    resolve(root, rel, optional_text(probe.canonical), optional_text(probe.parent_canonical))
}

/// Resolves the caller's path `rel` against the canonical `root`, given
/// what the filesystem said of the joined path.
pub fn safe_path(root: &str, rel: &str, probe: &PathProbe) -> (r: Result<String, AppError>)
    ensures
        match r {
            Ok(p) => resolve_probe(root@, rel@, *probe) == Ok::<Seq<char>, ErrorKind>(p@),
            Err(e) => resolve_probe(root@, rel@, *probe) == Err::<Seq<char>, ErrorKind>(e@.kind)
                && e@.reason == refusal_reason(e@.kind),
        },
{
    match &probe.canonical {
        Some(c) => {
            if is_within(root, c.as_str()) {
                Ok(c.clone())
            } else {
                Err(AppError::of(ErrorKind::Forbidden, "Path escape blocked"))
            }
        },
        None => {
            let target = join_path(root, rel);
            match (&probe.parent_canonical, file_name(target.as_str())) {
                (Some(dir), Some(leaf)) => {
                    if is_within(root, dir.as_str()) {
                        Ok(join_path(dir.as_str(), leaf))
                    } else {
                        Err(AppError::of(ErrorKind::BadRequest, "Target folder doesn't exist"))
                    }
                },
                _ => Err(AppError::of(ErrorKind::BadRequest, "Target folder doesn't exist")),
            }
        },
    }
}

/// A path that resolves outside the root is refused as `Forbidden`,
/// whatever the request looked like and whatever else is on disk.
pub proof fn lemma_escape_is_forbidden(
    root: Seq<char>,
    rel: Seq<char>,
    canonical: Seq<char>,
    parent_canonical: Option<Seq<char>>,
)
    requires
        !within(root, canonical),
    ensures
        resolve(root, rel, Some(canonical), parent_canonical) == Err::<Seq<char>, ErrorKind>(
            ErrorKind::Forbidden,
        ),
{
}

/// An entry with a plain name, inside a directory at or below the root,
/// lies below the root.
pub proof fn lemma_child_within(root: Seq<char>, dir: Seq<char>, name: Seq<char>)
    requires
        within(root, dir),
        is_plain_name(name),
    ensures
        within(root, joined(dir, name)),
{
    let q = joined(dir, name);
    let base = q.len() - name.len();
    assert(name[0] != '/');
    assert(q == if dir.last() == '/' {
        dir + name
    } else {
        dir + seq!['/'] + name
    });
    assert(forall|i: int| 0 <= i < dir.len() ==> q[i] == dir[i]);
    assert(forall|i: int| 0 <= i < name.len() ==> q[base + i] == name[i]);
    assert(q[base - 1] == '/');
    if dir.len() > 1 {
        assert(!bad_segment_at(dir, dir.len() as int));
        assert(dir.last() != '/');
        assert(base == dir.len() + 1);
    } else {
        assert(base == 1);
    }
    assert forall|i: int| !bad_segment_at(q, i) by {
        if 1 <= i <= q.len() && q[i - 1] == '/' {
            if i < base {
                // a segment of `dir`
                assert(dir.len() > 1);
                assert(!bad_segment_at(dir, i));
                assert(q[i - 1] == dir[i - 1]);
                if i < dir.len() {
                    assert(q[i] == dir[i]);
                }
                if i + 1 < dir.len() {
                    assert(q[i + 1] == dir[i + 1]);
                }
                if i + 2 < dir.len() {
                    assert(q[i + 2] == dir[i + 2]);
                }
            } else if i == base {
                assert(q[i] == name[0]);
                if name.len() > 1 {
                    assert(q[i + 1] == name[1]);
                }
                if name.len() > 2 {
                    assert(q[i + 2] == name[2]);
                }
            } else {
                assert(q[i - 1] == name[i - 1 - base]);
            }
        }
    }
    assert(root.is_prefix_of(q)) by {
        assert(q.subrange(0, root.len() as int) =~= dir.subrange(0, root.len() as int));
    }
    if dir.len() > root.len() {
        assert(q[root.len() as int] == dir[root.len() as int]);
    }
}

/// Whatever the request and whatever the filesystem said: a path that the
/// sandbox accepts is the root or lies below it.
pub proof fn lemma_resolved_within(
    root: Seq<char>,
    rel: Seq<char>,
    canonical: Option<Seq<char>>,
    parent_canonical: Option<Seq<char>>,
)
    ensures
        resolve(root, rel, canonical, parent_canonical) matches Ok(p) ==> within(root, p),
{
    if canonical is None {
        match (parent_canonical, file_name_of(joined(root, rel))) {
            (Some(dir), Some(leaf)) => {
                if within(root, dir) {
                    lemma_file_name_is_plain(joined(root, rel));
                    lemma_child_within(root, dir, leaf);
                }
            },
            _ => {},
        }
    }
}

} // verus!

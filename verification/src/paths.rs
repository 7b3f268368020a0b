//! Paths as texts with `/` between their segments.

use vstd::prelude::*;
use crate::text::{chars_of, find_last, last_index_of, lemma_last_index_of};

verus! {

/// Whether a path starts at the filesystem root.
pub open spec fn is_absolute(p: Seq<char>) -> bool {
    p.len() > 0 && p[0] == '/'
}

/// Where the final segment of `p[..end]` stands, as start and end index.
/// Empty segments and `.` at the end are passed over; a path that ends in
/// `..`, or that has no segment left, has no final segment.
pub open spec fn leaf_span(p: Seq<char>, end: int) -> Option<(int, int)>
    decreases end,
{
    if end <= 0 || end > p.len() {
        None
    } else {
        let cut = last_index_of(p, '/', end);
        let start = cut + 1;
        let n = end - start;
        if n == 0 || (n == 1 && p[start] == '.') {
            if cut < 0 {
                None
            } else {
                leaf_span(p, cut)
            }
        } else if n == 2 && p[start] == '.' && p[start + 1] == '.' {
            None
        } else {
            Some((start, end))
        }
    }
}

/// The final segment of a path: the name of the file or directory.
pub open spec fn file_name_of(p: Seq<char>) -> Option<Seq<char>> {
    match leaf_span(p, p.len() as int) {
        Some((a, b)) => Some(p.subrange(a, b)),
        None => None,
    }
}

/// What follows the last `.` of a file name. A name without `.`, or whose
/// only `.` is its first character, has none.
pub open spec fn extension_of_name(name: Seq<char>) -> Option<Seq<char>> {
    let dot = last_index_of(name, '.', name.len() as int);
    if dot <= 0 {
        None
    } else {
        Some(name.subrange(dot + 1, name.len() as int))
    }
}

/// The extension of a path's file name, without the `.`.
pub open spec fn extension_of(p: Seq<char>) -> Option<Seq<char>> {
    match file_name_of(p) {
        Some(name) => extension_of_name(name),
        None => None,
    }
}

/// Whether a text is one segment that names something: it is not empty,
/// holds no `/`, and is neither `.` nor `..`.
pub open spec fn is_plain_name(name: Seq<char>) -> bool {
    &&& name.len() > 0
    &&& forall|i: int| 0 <= i < name.len() ==> name[i] != '/'
    &&& !(name.len() == 1 && name[0] == '.')
    &&& !(name.len() == 2 && name[0] == '.' && name[1] == '.')
}

proof fn lemma_leaf_span_plain(p: Seq<char>, end: int)
    ensures
        leaf_span(p, end) matches Some((a, b)) ==> 0 <= a < b <= p.len() && is_plain_name(
            p.subrange(a, b),
        ),
    decreases end,
{
    if 0 < end <= p.len() {
        lemma_last_index_of(p, '/', end);
        let cut = last_index_of(p, '/', end);
        let start = cut + 1;
        let n = end - start;
        if n == 0 || (n == 1 && p[start] == '.') {
            if cut >= 0 {
                lemma_leaf_span_plain(p, cut);
            }
        } else if n == 2 && p[start] == '.' && p[start + 1] == '.' {
        } else {
            let name = p.subrange(start, end);
            assert forall|i: int| 0 <= i < name.len() implies name[i] != '/' by {
                assert(name[i] == p[start + i]);
            }
        }
    }
}

/// The file name of a path is a plain name.
pub proof fn lemma_file_name_is_plain(p: Seq<char>)
    ensures
        file_name_of(p) matches Some(name) ==> is_plain_name(name),
{
    lemma_leaf_span_plain(p, p.len() as int);
}

fn leaf_bounds(chars: &Vec<char>) -> (r: Option<(usize, usize)>)
    ensures
        match r {
            Some((a, b)) => leaf_span(chars@, chars@.len() as int) == Some((a as int, b as int))
                && a < b <= chars@.len(),
            None => leaf_span(chars@, chars@.len() as int) is None,
        },
{
    let mut end: usize = chars.len();
    loop
        invariant
            end <= chars.len(),
            leaf_span(chars@, chars@.len() as int) == leaf_span(chars@, end as int),
        decreases end,
    {
        if end == 0 {
            return None;
        }
        proof {
            lemma_last_index_of(chars@, '/', end as int);
        }
        let cut = find_last(chars, '/', end);
        let start: usize = match cut {
            Some(i) => i + 1,
            None => 0,
        };
        let n: usize = end - start;
        if n == 0 || (n == 1 && chars[start] == '.') {
            match cut {
                Some(i) => {
                    end = i;
                },
                None => {
                    return None;
                },
            }
        } else if n == 2 && chars[start] == '.' && chars[start + 1] == '.' {
            return None;
        } else {
            return Some((start, end));
        }
    }
}

/// The name of the file or directory that a path ends in.
pub fn file_name(path: &str) -> (r: Option<&str>)
    ensures
        match r {
            Some(name) => file_name_of(path@) == Some(name@),
            None => file_name_of(path@) is None,
        },
{
    let chars = chars_of(path);
    match leaf_bounds(&chars) {
        Some((a, b)) => Some(path.substring_char(a, b)),
        None => None,
    }
}

/// The extension of a file name, without the `.`.
pub fn name_extension(name: &str) -> (r: Option<&str>)
    ensures
        match r {
            Some(ext) => extension_of_name(name@) == Some(ext@),
            None => extension_of_name(name@) is None,
        },
{
    let chars = chars_of(name);
    proof {
        lemma_last_index_of(name@, '.', name@.len() as int);
    }
    match find_last(&chars, '.', chars.len()) {
        Some(dot) => {
            if dot == 0 {
                None
            } else {
                Some(name.substring_char(dot + 1, chars.len()))
            }
        },
        None => None,
    }
}

/// The extension of the file that a path names, without the `.`.
pub fn extension(path: &str) -> (r: Option<&str>)
    ensures
        match r {
            Some(ext) => extension_of(path@) == Some(ext@),
            None => extension_of(path@) is None,
        },
{
    match file_name(path) {
        Some(name) => name_extension(name),
        None => None,
    }
}

/// `rel` taken from `base`: an absolute `rel` stands for itself, any other
/// is appended to `base` behind one `/`.
pub open spec fn joined(base: Seq<char>, rel: Seq<char>) -> Seq<char> {
    if is_absolute(rel) || base.len() == 0 {
        rel
    } else if base.last() == '/' {
        base + rel
    } else {
        base + seq!['/'] + rel
    }
}

/// Joins `rel` onto `base`.
pub fn join_path(base: &str, rel: &str) -> (r: String)
    ensures
        r@ == joined(base@, rel@),
{
    let b = chars_of(base);
    let l = chars_of(rel);
    if b.len() == 0 || (l.len() > 0 && l[0] == '/') {
        rel.to_owned()
    } else if b[b.len() - 1] == '/' {
        let mut out = base.to_owned();
        out.append(rel);
        out
    } else {
        let mut out = base.to_owned();
        proof {
            reveal_strlit("/");
        }
        out.append("/");
        out.append(rel);
        assert(out@ =~= base@ + seq!['/'] + rel@);
        out
    }
}

/// The path of an entry called `name` inside the directory `parent`, both
/// relative to the root, whose own path is empty.
pub open spec fn child_path_of(parent: Seq<char>, name: Seq<char>) -> Seq<char> {
    if parent.len() == 0 {
        name
    } else {
        parent + seq!['/'] + name
    }
}

/// The relative path of `name` inside the directory at `parent`.
pub fn child_path(parent: &str, name: &str) -> (r: String)
    ensures
        r@ == child_path_of(parent@, name@),
{
    if parent.unicode_len() == 0 {
        name.to_owned()
    } else {
        let mut out = parent.to_owned();
        proof {
            reveal_strlit("/");
        }
        out.append("/");
        out.append(name);
        assert(out@ =~= parent@ + seq!['/'] + name@);
        out
    }
}

/// `s[..end]` without the `/` it ends in; a lone `/` stays.
pub open spec fn without_trailing_slashes(s: Seq<char>, end: int) -> int
    decreases end,
{
    if 1 < end <= s.len() && s[end - 1] == '/' {
        without_trailing_slashes(s, end - 1)
    } else {
        end
    }
}

/// The directory that holds the final segment of a path.
pub open spec fn parent_of(p: Seq<char>) -> Option<Seq<char>> {
    match leaf_span(p, p.len() as int) {
        Some((a, b)) => Some(p.subrange(0, without_trailing_slashes(p, a))),
        None => None,
    }
}

/// The directory that holds the file or directory that a path ends in.
pub fn parent(path: &str) -> (r: Option<&str>)
    ensures
        match r {
            Some(dir) => parent_of(path@) == Some(dir@),
            None => parent_of(path@) is None,
        },
{
    let chars = chars_of(path);
    match leaf_bounds(&chars) {
        Some((a, b)) => {
            let mut end: usize = a;
            while end > 1 && chars[end - 1] == '/'
                invariant
                    end <= a <= chars.len(),
                    without_trailing_slashes(chars@, a as int) == without_trailing_slashes(
                        chars@,
                        end as int,
                    ),
                decreases end,
            {
                end = end - 1;
            }
            Some(path.substring_char(0, end))
        },
        None => None,
    }
}

/// The first index from `from` on at which `s` holds no `/`.
pub open spec fn after_slashes(s: Seq<char>, from: int) -> int
    decreases s.len() - from,
{
    if 0 <= from < s.len() && s[from] == '/' {
        after_slashes(s, from + 1)
    } else {
        from
    }
}

/// The end of `s[lo..end]` once the `/` at its end are taken off.
pub open spec fn before_slashes(s: Seq<char>, lo: int, end: int) -> int
    decreases end - lo,
{
    if 0 <= lo < end <= s.len() && s[end - 1] == '/' {
        before_slashes(s, lo, end - 1)
    } else {
        end
    }
}

/// A text without the `/` at its start and at its end.
pub open spec fn trim_slashes(s: Seq<char>) -> Seq<char> {
    let a = after_slashes(s, 0);
    s.subrange(a, before_slashes(s, a, s.len() as int))
}

/// Takes the `/` off both ends of a text.
pub fn trim_separators(s: &str) -> (r: &str)
    ensures
        r@ == trim_slashes(s@),
{
    let chars = chars_of(s);
    let mut a: usize = 0;
    while a < chars.len() && chars[a] == '/'
        invariant
            a <= chars.len(),
            after_slashes(chars@, 0) == after_slashes(chars@, a as int),
        decreases chars.len() - a,
    {
        a = a + 1;
    }
    let mut b: usize = chars.len();
    while b > a && chars[b - 1] == '/'
        invariant
            a <= b <= chars.len(),
            before_slashes(chars@, a as int, chars@.len() as int) == before_slashes(
                chars@,
                a as int,
                b as int,
            ),
        decreases b - a,
    {
        b = b - 1;
    }
    s.substring_char(a, b)
}

/// Whether a segment is `.`.
pub open spec fn is_dot(seg: Seq<char>) -> bool {
    seg.len() == 1 && seg[0] == '.'
}

/// Whether a segment is `..`.
pub open spec fn is_dot_dot(seg: Seq<char>) -> bool {
    seg.len() == 2 && seg[0] == '.' && seg[1] == '.'
}

/// The segments that stand once `seg` has come behind `stack`: an empty
/// segment and `.` change nothing, `..` takes back the segment before it,
/// unless there is none or that is `..` itself, and any other segment is
/// added.
pub open spec fn settle(stack: Seq<Seq<char>>, seg: Seq<char>) -> Seq<Seq<char>> {
    if seg.len() == 0 || is_dot(seg) {
        stack
    } else if is_dot_dot(seg) && stack.len() > 0 && !is_dot_dot(stack.last()) {
        stack.drop_last()
    } else {
        stack.push(seg)
    }
}

/// The segments that stand after the first `upto` characters of `p`, and
/// the segment that is being read.
pub open spec fn segments_upto(p: Seq<char>, upto: int) -> (Seq<Seq<char>>, Seq<char>)
    decreases upto,
{
    if upto <= 0 || upto > p.len() {
        (Seq::empty(), Seq::empty())
    } else {
        let (stack, current) = segments_upto(p, upto - 1);
        if p[upto - 1] == '/' {
            (settle(stack, current), Seq::empty())
        } else {
            (stack, current.push(p[upto - 1]))
        }
    }
}

/// The segments of a path, settled.
pub open spec fn settled_segments(p: Seq<char>) -> Seq<Seq<char>> {
    let (stack, current) = segments_upto(p, p.len() as int);
    settle(stack, current)
}

/// The first `upto` of `segs` with one `/` between each two.
pub open spec fn joined_segments(segs: Seq<Seq<char>>, upto: int) -> Seq<char>
    decreases upto,
{
    if upto <= 0 || upto > segs.len() {
        Seq::empty()
    } else if upto == 1 {
        segs[0]
    } else {
        joined_segments(segs, upto - 1) + seq!['/'] + segs[upto - 1]
    }
}

/// The one spelling of a relative path among all that differ in doubled,
/// leading or trailing `/`, in `.`, or in a segment followed by `..`.
pub open spec fn normalized(p: Seq<char>) -> Seq<char> {
    joined_segments(settled_segments(p), settled_segments(p).len() as int)
}

/// The texts that spans of `p` hold.
spec fn span_texts(p: Seq<char>, spans: Seq<(usize, usize)>) -> Seq<Seq<char>> {
    Seq::new(spans.len(), |i: int| p.subrange(spans[i].0 as int, spans[i].1 as int))
}

/// Whether each span lies in a text of `len` characters.
spec fn spans_fit(spans: Seq<(usize, usize)>, len: int) -> bool {
    forall|i: int| 0 <= i < spans.len() ==> (#[trigger] spans[i]).0 <= spans[i].1 <= len
}

fn settle_span(chars: &Vec<char>, stack: &mut Vec<(usize, usize)>, a: usize, b: usize)
    requires
        a <= b <= chars.len(),
        spans_fit(old(stack)@, chars@.len() as int),
    ensures
        spans_fit(final(stack)@, chars@.len() as int),
        span_texts(chars@, final(stack)@) == settle(
            span_texts(chars@, old(stack)@),
            chars@.subrange(a as int, b as int),
        ),
{
    let ghost before = stack@;
    let ghost texts = span_texts(chars@, before);
    let ghost seg = chars@.subrange(a as int, b as int);
    let n: usize = b - a;
    if n == 0 || (n == 1 && chars[a] == '.') {
        return ;
    }
    if n == 2 && chars[a] == '.' && chars[a + 1] == '.' && stack.len() > 0 {
        let (x, y) = stack[stack.len() - 1];
        assert(before[before.len() - 1] == (x, y));
        assert(texts.last() == chars@.subrange(x as int, y as int));
        if !(y - x == 2 && chars[x] == '.' && chars[x + 1] == '.') {
            let _ = stack.pop();
            assert(span_texts(chars@, stack@) =~= texts.drop_last());
            return ;
        }
    }
    stack.push((a, b));
    assert(span_texts(chars@, stack@) =~= texts.push(seg));
}

/// Spells a relative path in its one normal way: `a//b/`, `./a/b` and
/// `a/x/../b` all become `a/b`.
pub fn normalize(path: &str) -> (r: String)
    ensures
        r@ == normalized(path@),
{
    let chars = chars_of(path);
    let mut stack: Vec<(usize, usize)> = Vec::new();
    let mut start: usize = 0;
    let mut i: usize = 0;
    assert(span_texts(chars@, stack@) =~= Seq::<Seq<char>>::empty());
    assert(chars@.subrange(0, 0) =~= Seq::<char>::empty());
    while i < chars.len()
        invariant
            start <= i <= chars.len(),
            chars@ == path@,
            spans_fit(stack@, chars@.len() as int),
            segments_upto(path@, i as int) == (
                span_texts(chars@, stack@),
                chars@.subrange(start as int, i as int),
            ),
        decreases chars.len() - i,
    {
        if chars[i] == '/' {
            settle_span(&chars, &mut stack, start, i);
            start = i + 1;
            assert(chars@.subrange(start as int, i + 1) =~= Seq::<char>::empty());
        } else {
            assert(chars@.subrange(start as int, i + 1) =~= chars@.subrange(
                start as int,
                i as int,
            ).push(chars@[i as int]));
        }
        i = i + 1;
    }
    settle_span(&chars, &mut stack, start, chars.len());
    let ghost segs = span_texts(chars@, stack@);
    assert(segs == settled_segments(path@));
    let mut out = String::new();
    let mut k: usize = 0;
    while k < stack.len()
        invariant
            k <= stack.len(),
            chars@ == path@,
            spans_fit(stack@, chars@.len() as int),
            segs == span_texts(chars@, stack@),
            out@ == joined_segments(segs, k as int),
        decreases stack.len() - k,
    {
        let (a, b) = stack[k];
        assert(segs[k as int] == chars@.subrange(a as int, b as int));
        if k > 0 {
            proof {
                reveal_strlit("/");
            }
            out.append("/");
        }
        out.append(path.substring_char(a, b));
        assert(out@ =~= joined_segments(segs, k as int + 1));
        k = k + 1;
    }
    out
}

} // verus!

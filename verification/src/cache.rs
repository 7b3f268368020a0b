//! The cache of derived files: where a derivative is kept, how it is made,
//! and which files leave when the cache outgrows its budget.

use vstd::prelude::*;
use crate::media::Timestamp;
use crate::paths::{file_name, file_name_of};
use crate::text::chars_of;

verus! {

/// The views of a list of texts.
pub open spec fn texts_of(v: Seq<String>) -> Seq<Seq<char>> {
    Seq::new(v.len(), |i: int| v[i]@)
}

/// How one character of a source path is written in the name of its
/// derivative: `/` as `%2F` and `%` as `%25`, so that the name holds no
/// `/`, and every other character as it is.
pub open spec fn escaped_char(c: char) -> Seq<char> {
    if c == '/' {
        seq!['%', '2', 'F']
    } else if c == '%' {
        seq!['%', '2', '5']
    } else {
        seq![c]
    }
}

/// A source path written as one file name, character by character.
pub open spec fn escaped(p: Seq<char>) -> Seq<char>
    decreases p.len(),
{
    if p.len() == 0 {
        Seq::empty()
    } else {
        escaped(p.drop_last()) + escaped_char(p.last())
    }
}

/// Where the derivative of the source at `source` is kept: directly in the
/// directory `cache`, under the whole path of the source, written as one
/// file name, with `.mp4` behind it. A path that names no file has no
/// derivative.
pub open spec fn cache_path_of(source: Seq<char>) -> Option<Seq<char>> {
    if file_name_of(source) is Some {
        Some("cache/"@ + escaped(source) + ".mp4"@)
    } else {
        None
    }
}

/// A text without `/` and `%` is written as it is.
proof fn lemma_escaped_plain(p: Seq<char>)
    requires
        forall|i: int| 0 <= i < p.len() ==> p[i] != '/' && p[i] != '%',
    ensures
        escaped(p) == p,
    decreases p.len(),
{
    if p.len() > 0 {
        lemma_escaped_plain(p.drop_last());
        assert(escaped(p) =~= p);
    }
}

/// Two texts one behind the other are written one behind the other.
proof fn lemma_escaped_concat(a: Seq<char>, b: Seq<char>)
    ensures
        escaped(a + b) == escaped(a) + escaped(b),
    decreases b.len(),
{
    if b.len() == 0 {
        assert(a + b =~= a);
        assert(escaped(a) + escaped(b) =~= escaped(a));
    } else {
        lemma_escaped_concat(a, b.drop_last());
        assert((a + b).drop_last() =~= a + b.drop_last());
        assert((a + b).last() == b.last());
        assert(escaped(a + b) =~= escaped(a) + escaped(b));
    }
}

/// The written form begins with the written form of the first character.
proof fn lemma_escaped_front(p: Seq<char>)
    requires
        p.len() > 0,
    ensures
        escaped(p) == escaped_char(p[0]) + escaped(p.drop_first()),
{
    let head = seq![p[0]];
    assert(p =~= head + p.drop_first());
    lemma_escaped_concat(head, p.drop_first());
    assert(head.drop_last() =~= Seq::<char>::empty());
    assert(head.last() == p[0]);
    assert(escaped(Seq::<char>::empty()) =~= Seq::<char>::empty());
    assert(escaped(head) =~= escaped(head.drop_last()) + escaped_char(head.last()));
    assert(escaped(head) =~= escaped_char(p[0]));
}

/// The written form of a path holds no `/`.
pub proof fn lemma_escaped_is_one_name(p: Seq<char>)
    ensures
        forall|i: int| 0 <= i < escaped(p).len() ==> escaped(p)[i] != '/',
    decreases p.len(),
{
    if p.len() > 0 {
        lemma_escaped_is_one_name(p.drop_last());
        let init = escaped(p.drop_last());
        let last = escaped_char(p.last());
        assert forall|i: int| 0 <= i < escaped(p).len() implies escaped(p)[i] != '/' by {
            if i < init.len() {
                assert(escaped(p)[i] == init[i]);
            } else {
                assert(escaped(p)[i] == last[i - init.len()]);
            }
        }
    }
}

/// Different paths are written differently.
pub proof fn lemma_escaped_tells_apart(p: Seq<char>, q: Seq<char>)
    requires
        escaped(p) == escaped(q),
    ensures
        p == q,
    decreases p.len(),
{
    if p.len() == 0 {
        if q.len() > 0 {
            lemma_escaped_front(q);
            assert(escaped(q).len() > 0);
        }
        assert(p =~= q);
    } else if q.len() == 0 {
        lemma_escaped_front(p);
        assert(escaped(p).len() > 0);
    } else {
        lemma_escaped_front(p);
        lemma_escaped_front(q);
        let a = escaped_char(p[0]);
        let b = escaped_char(q[0]);
        let whole = escaped(p);
        assert(whole[0] == a[0] && whole[0] == b[0]);
        if a.len() == 3 {
            assert(b.len() == 3);
            assert(whole[2] == a[2] && whole[2] == b[2]);
        }
        assert(p[0] == q[0]);
        assert(escaped(p.drop_first()) =~= whole.subrange(a.len() as int, whole.len() as int));
        assert(escaped(q.drop_first()) =~= whole.subrange(b.len() as int, whole.len() as int));
        lemma_escaped_tells_apart(p.drop_first(), q.drop_first());
        assert(p =~= seq![p[0]] + p.drop_first());
        assert(q =~= seq![q[0]] + q.drop_first());
    }
}

/// The cache is keyed by the source path: two sources with one cache path
/// are one source. And a derivative lies directly in `cache`: behind the
/// directory's name its path holds no further `/`.
pub proof fn lemma_cache_path_names_one_source(p: Seq<char>, q: Seq<char>)
    requires
        cache_path_of(p) is Some,
    ensures
        cache_path_of(p) == cache_path_of(q) ==> p == q,
        forall|i: int|
            "cache/"@.len() <= i < cache_path_of(p)->0.len() ==> cache_path_of(p)->0[i] != '/',
        "cache/"@.is_prefix_of(cache_path_of(p)->0),
{
    reveal_strlit("cache/");
    reveal_strlit(".mp4");
    let head = "cache/"@;
    let tail = ".mp4"@;
    let cp = cache_path_of(p)->0;
    lemma_escaped_is_one_name(p);
    assert(cp =~= head + escaped(p) + tail);
    assert(head =~= cp.subrange(0, head.len() as int));
    assert forall|i: int| head.len() <= i < cp.len() implies cp[i] != '/' by {
        if i < head.len() + escaped(p).len() {
            assert(cp[i] == escaped(p)[i - head.len()]);
        } else {
            assert(cp[i] == tail[i - head.len() - escaped(p).len()]);
        }
    }
    if cache_path_of(p) == cache_path_of(q) {
        let cq = cache_path_of(q)->0;
        assert(cq =~= head + escaped(q) + tail);
        assert(escaped(p) =~= cp.subrange(head.len() as int, cp.len() - tail.len()));
        assert(escaped(q) =~= cq.subrange(head.len() as int, cq.len() - tail.len()));
        lemma_escaped_tells_apart(p, q);
    }
}

/// Writes a path as one file name.
pub fn escape_path(path: &str) -> (r: String)
    ensures
        r@ == escaped(path@),
{
    let chars = chars_of(path);
    let mut out = String::new();
    // the run of characters since `start` goes out as it is
    let mut start: usize = 0;
    let mut i: usize = 0;
    assert(path@.take(0) =~= Seq::<char>::empty());
    assert(path@.subrange(0, 0) =~= Seq::<char>::empty());
    while i < chars.len()
        invariant
            start <= i <= chars.len(),
            chars@ == path@,
            out@ + path@.subrange(start as int, i as int) == escaped(path@.take(i as int)),
            forall|k: int| start <= k < i ==> path@[k] != '/' && path@[k] != '%',
        decreases chars.len() - i,
    {
        let c = chars[i];
        let ghost run = path@.subrange(start as int, i as int);
        let ghost before = out@;
        proof {
            assert(path@.take(i + 1).drop_last() =~= path@.take(i as int));
            assert(path@.take(i + 1).last() == c);
        }
        if c == '/' || c == '%' {
            out.append(path.substring_char(start, i));
            proof {
                reveal_strlit("%2F");
                reveal_strlit("%25");
            }
            if c == '/' {
                out.append("%2F");
            } else {
                out.append("%25");
            }
            start = i + 1;
            assert(out@ =~= before + run + escaped_char(c));
            assert(path@.subrange(start as int, i + 1) =~= Seq::<char>::empty());
            assert(out@ + path@.subrange(start as int, i + 1) =~= escaped(path@.take(i + 1)));
        } else {
            assert(path@.subrange(start as int, i + 1) =~= run + escaped_char(c));
            assert(out@ + path@.subrange(start as int, i + 1) =~= escaped(path@.take(i + 1)));
        }
        i = i + 1;
    }
    out.append(path.substring_char(start, chars.len()));
    assert(path@.take(chars@.len() as int) =~= path@);
    out
}

/// The path under which the derivative of the source at `source` is
/// cached.
pub fn cache_path_for(source: &str) -> (r: Option<String>)
    ensures
        match r {
            Some(p) => cache_path_of(source@) == Some(p@),
            None => cache_path_of(source@) is None,
        },
{
    match file_name(source) {
        Some(_) => {
            let mut out = "cache/".to_owned();
            let name = escape_path(source);
            out.append(name.as_str());
            out.append(".mp4");
            Some(out)
        },
        None => None,
    }
}

/// The arguments with which the transcoder turns `input` into a
/// fragmented MP4 at `output`.
pub open spec fn transcode_args_of(input: Seq<char>, output: Seq<char>) -> Seq<Seq<char>> {
    seq![
        "-i"@,
        input,
        "-f"@,
        "mp4"@,
        "-c:v"@,
        "libx264"@,
        "-c:a"@,
        "aac"@,
        "-movflags"@,
        "frag_keyframe+empty_moov"@,
        "-preset"@,
        "veryfast"@,
        "-tune"@,
        "zerolatency"@,
        output,
    ]
}

/// The argument list for one run of the transcoder.
pub fn transcode_args(input: &str, output: &str) -> (r: Vec<String>)
    ensures
        texts_of(r@) == transcode_args_of(input@, output@),
{
    let mut args: Vec<String> = Vec::new();
    args.push("-i".to_owned());
    args.push(input.to_owned());
    args.push("-f".to_owned());
    args.push("mp4".to_owned());
    args.push("-c:v".to_owned());
    args.push("libx264".to_owned());
    args.push("-c:a".to_owned());
    args.push("aac".to_owned());
    args.push("-movflags".to_owned());
    args.push("frag_keyframe+empty_moov".to_owned());
    args.push("-preset".to_owned());
    args.push("veryfast".to_owned());
    args.push("-tune".to_owned());
    args.push("zerolatency".to_owned());
    args.push(output.to_owned());
    assert(texts_of(args@) =~= transcode_args_of(input@, output@));
    args
}

/// A regular file of the cache directory.
#[derive(Debug)]
pub struct CacheFile {
    pub path: String,
    pub modified: Timestamp,
    pub size: u64,
}

/// Whether `a` is an earlier point in time than `b`.
pub open spec fn earlier(a: Timestamp, b: Timestamp) -> bool {
    a.secs < b.secs || (a.secs == b.secs && a.nanos < b.nanos)
}

/// Whether the file at index `i` leaves the cache before the file at `j`:
/// it was modified earlier, or at the same time and is listed first.
pub open spec fn leaves_before(files: Seq<CacheFile>, i: int, j: int) -> bool {
    earlier(files[i].modified, files[j].modified) || (files[i].modified == files[j].modified && i
        < j)
}

fn goes_first(files: &Vec<CacheFile>, i: usize, j: usize) -> (r: bool)
    requires
        i < files.len(),
        j < files.len(),
    ensures
        r == leaves_before(files@, i as int, j as int),
{
    let a = files[i].modified;
    let b = files[j].modified;
    a.secs < b.secs || (a.secs == b.secs && a.nanos < b.nanos) || (a.secs == b.secs && a.nanos
        == b.nanos && i < j)
}

/// The bytes held by the first `upto` files.
pub open spec fn total_size(files: Seq<CacheFile>, upto: int) -> nat
    decreases upto,
{
    if upto <= 0 || upto > files.len() {
        0
    } else {
        total_size(files, upto - 1) + files[upto - 1].size as nat
    }
}

/// The bytes held by the files that the first `upto` indices of `picked`
/// name.
pub open spec fn picked_size(files: Seq<CacheFile>, picked: Seq<usize>, upto: int) -> nat
    decreases upto,
{
    if upto <= 0 || upto > picked.len() {
        0
    } else {
        picked_size(files, picked, upto - 1) + files[picked[upto - 1] as int].size as nat
    }
}

/// Whether `order` lists indices of `files` so that each leaves before the
/// next.
pub open spec fn in_leaving_order(files: Seq<CacheFile>, order: Seq<usize>) -> bool {
    &&& forall|a: int| 0 <= a < order.len() ==> (#[trigger] order[a]) < files.len()
    &&& forall|a: int, b: int|
        0 <= a < b < order.len() ==> leaves_before(
            files,
            (#[trigger] order[a]) as int,
            (#[trigger] order[b]) as int,
        )
}

/// Whether `victims` is what an eviction to `max_bytes` removes: the files
/// that leave first, in their order, as few of them as bring the cache
/// down to its budget. Every file that stays would leave after each
/// victim, and with one victim less the cache would still be too large.
pub open spec fn is_eviction(files: Seq<CacheFile>, max_bytes: u64, victims: Seq<usize>) -> bool {
    &&& in_leaving_order(files, victims)
    &&& forall|j: int, a: int|
        0 <= j < files.len() && 0 <= a < victims.len() && !victims.contains(j as usize)
            ==> #[trigger] leaves_before(files, victims[a] as int, j)
    &&& total_size(files, files.len() as int) - picked_size(files, victims, victims.len() as int)
        <= max_bytes
    &&& forall|k: int|
        0 <= k < victims.len() ==> total_size(files, files.len() as int) - #[trigger] picked_size(
            files,
            victims,
            k,
        ) > max_bytes
}

/// The indices of all files, each leaving before the next.
fn leaving_order(files: &Vec<CacheFile>) -> (order: Vec<usize>)
    ensures
        order@.len() == files@.len(),
        in_leaving_order(files@, order@),
        forall|j: usize| j < files@.len() ==> order@.contains(j),
{
    let mut order: Vec<usize> = Vec::new();
    let mut i: usize = 0;
    while i < files.len()
        invariant
            i <= files.len(),
            order@.len() == i,
            in_leaving_order(files@, order@),
            forall|a: int| 0 <= a < order@.len() ==> (#[trigger] order@[a]) < i,
            forall|j: usize| j < i ==> order@.contains(j),
        decreases files.len() - i,
    {
        // the place of `i`: behind every index that leaves before it
        let mut at: usize = order.len();
        while at > 0 && goes_first(files, i, order[at - 1])
            invariant
                at <= order@.len(),
                i < files.len(),
                order@.len() == i,
                in_leaving_order(files@, order@),
                forall|a: int| 0 <= a < order@.len() ==> (#[trigger] order@[a]) < i,
                forall|b: int|
                    at <= b < order@.len() ==> leaves_before(
                        files@,
                        i as int,
                        (#[trigger] order@[b]) as int,
                    ),
            decreases at,
        {
            at = at - 1;
        }
        let ghost before = order@;
        order.insert(at, i);
        proof {
            assert forall|a: int, b: int| 0 <= a < b < order@.len() implies leaves_before(
                files@,
                (#[trigger] order@[a]) as int,
                (#[trigger] order@[b]) as int,
            ) by {
                if b < at {
                    assert(order@[a] == before[a] && order@[b] == before[b]);
                } else if b == at {
                    assert(order@[a] == before[a]);
                    // before[a] does not leave after i: it is not i, so it leaves before
                    if at > 0 {
                        assert(!leaves_before(files@, i as int, before[at - 1] as int));
                        if a < at - 1 {
                            assert(leaves_before(files@, before[a] as int, before[at - 1] as int));
                        }
                    }
                } else if a < at {
                    assert(order@[a] == before[a] && order@[b] == before[b - 1]);
                } else if a == at {
                    assert(order@[b] == before[b - 1]);
                } else {
                    assert(order@[a] == before[a - 1] && order@[b] == before[b - 1]);
                }
            }
            assert forall|j: usize| j < i + 1 implies order@.contains(j) by {
                if j < i {
                    assert(before.contains(j));
                    let w = choose|w: int| 0 <= w < before.len() && before[w] == j;
                    if w < at {
                        assert(order@[w] == j);
                    } else {
                        assert(order@[w + 1] == j);
                    }
                } else {
                    assert(order@[at as int] == i);
                }
            }
        }
        i = i + 1;
    }
    order
}

/// Plans an eviction: which files of the cache directory are to be
/// deleted, oldest first, so that what stays holds at most `max_bytes`.
/// A file that cannot be deleted counts as gone all the same.
pub fn clean_cache_space(files: &Vec<CacheFile>, max_bytes: u64) -> (victims: Vec<usize>)
    ensures
        is_eviction(files@, max_bytes, victims@),
{
    let order = leaving_order(files);
    let mut total: u128 = 0;
    let mut i: usize = 0;
    while i < files.len()
        invariant
            i <= files.len(),
            total == total_size(files@, i as int),
            total <= i * u64::MAX,
        decreases files.len() - i,
    {
        total = total + files[i].size as u128;
        i = i + 1;
    }
    let mut victims: Vec<usize> = Vec::new();
    let mut freed: u128 = 0;
    let mut k: usize = 0;
    while k < order.len() && total - freed > max_bytes as u128
        invariant
            k <= order@.len(),
            order@.len() == files@.len(),
            in_leaving_order(files@, order@),
            victims@ == order@.take(k as int),
            total == total_size(files@, files@.len() as int),
            freed == picked_size(files@, victims@, k as int),
            freed <= total,
            forall|j: int|
                0 <= j < k ==> total - #[trigger] picked_size(files@, victims@, j) > max_bytes,
        decreases order@.len() - k,
    {
        let ghost before = victims@;
        proof {
            lemma_picked_within_total(files@, order@, k as int + 1);
            lemma_picked_prefix(files@, order@, order@.take(k as int + 1), k as int + 1);
            lemma_picked_prefix(files@, order@, before, k as int);
        }
        victims.push(order[k]);
        assert(victims@ =~= order@.take(k as int + 1));
        proof {
            assert forall|j: int| 0 <= j < k + 1 implies total - #[trigger] picked_size(
                files@,
                victims@,
                j,
            ) > max_bytes by {
                lemma_picked_prefix(files@, victims@, before, j);
            }
        }
        freed = freed + files[order[k]].size as u128;
        k = k + 1;
    }
    proof {
        if k == order.len() {
            lemma_picked_within_total(files@, order@, k as int);
            lemma_picked_prefix(files@, order@, victims@, k as int);
        }
        assert forall|j: int, a: int|
            0 <= j < files@.len() && 0 <= a < victims@.len() && !victims@.contains(
                j as usize,
            ) implies #[trigger] leaves_before(files@, victims@[a] as int, j) by {
            assert(order@.contains(j as usize));
            let w = choose|w: int| 0 <= w < order@.len() && order@[w] == j as usize;
            if w < k {
                assert(victims@[w] == j as usize);
            }
            assert(victims@[a] == order@[a]);
        }
    }
    victims
}

/// Indices that leave one before the other pick no more than all files
/// hold, and pick all of it if they are as many as the files.
proof fn lemma_picked_within_total(files: Seq<CacheFile>, order: Seq<usize>, upto: int)
    requires
        in_leaving_order(files, order),
        0 <= upto <= order.len(),
    ensures
        picked_size(files, order, upto) <= total_size(files, files.len() as int),
        upto == files.len() ==> picked_size(files, order, upto) == total_size(
            files,
            files.len() as int,
        ),
{
    assert forall|a: int, b: int| 0 <= a < b < upto implies (#[trigger] order[a]) != (
    #[trigger] order[b]) by {
        assert(leaves_before(files, order[a] as int, order[b] as int));
    }
    lemma_picked_bounded(files, order, upto, files.len() as int);
}

/// The files that `upto` distinct indices pick, all below `n`, hold no
/// more than the first `n` files; there are at most `n` such indices, and
/// `n` of them pick all that the first `n` files hold.
proof fn lemma_picked_bounded(files: Seq<CacheFile>, order: Seq<usize>, upto: int, n: int)
    requires
        0 <= upto <= order.len(),
        0 <= n <= files.len(),
        forall|a: int| 0 <= a < upto ==> (#[trigger] order[a]) < n,
        forall|a: int, b: int| 0 <= a < b < upto ==> (#[trigger] order[a]) != (#[trigger] order[b]),
    ensures
        picked_size(files, order, upto) <= total_size(files, n),
        upto <= n,
        upto == n ==> picked_size(files, order, upto) == total_size(files, n),
    decreases n,
{
    if n == 0 {
        if upto > 0 {
            assert(order[0] < n);
        }
    } else {
        // leave out the index n - 1, if it is picked
        if exists|w: int| 0 <= w < upto && order[w] as int == n - 1 {
            let w = choose|w: int| 0 <= w < upto && order[w] as int == n - 1;
            let picked = order.take(upto);
            let rest = picked.remove(w);
            assert forall|a: int| 0 <= a < rest.len() implies (#[trigger] rest[a]) < n - 1 by {
                let x = if a < w {
                    a
                } else {
                    a + 1
                };
                assert(rest[a] == order[x]);
                assert(order[x] < n);
                if x < w {
                    assert(order[x] != order[w]);
                } else {
                    assert(order[w] != order[x]);
                }
            }
            assert forall|a: int, b: int| 0 <= a < b < rest.len() implies (#[trigger] rest[a]) != (
            #[trigger] rest[b]) by {
                let x = if a < w {
                    a
                } else {
                    a + 1
                };
                let y = if b < w {
                    b
                } else {
                    b + 1
                };
                assert(rest[a] == order[x] && rest[b] == order[y]);
                assert(order[x] != order[y]);
            }
            lemma_picked_bounded(files, rest, upto - 1, n - 1);
            lemma_picked_remove(files, picked, w, upto);
            lemma_picked_prefix(files, order, picked, upto);
        } else {
            assert forall|a: int| 0 <= a < upto implies (#[trigger] order[a]) < n - 1 by {
                assert(order[a] < n);
                assert(order[a] as int != n - 1);
            }
            lemma_picked_bounded(files, order, upto, n - 1);
        }
    }
}

/// Two lists that agree on their first `upto` indices pick the same bytes
/// there.
proof fn lemma_picked_prefix(files: Seq<CacheFile>, a: Seq<usize>, b: Seq<usize>, upto: int)
    requires
        0 <= upto <= a.len(),
        upto <= b.len(),
        forall|i: int| 0 <= i < upto ==> a[i] == b[i],
    ensures
        picked_size(files, a, upto) == picked_size(files, b, upto),
    decreases upto,
{
    if upto > 0 {
        lemma_picked_prefix(files, a, b, upto - 1);
    }
}

/// Taking one index out of a list takes its file's bytes out of the sum.
proof fn lemma_picked_remove(files: Seq<CacheFile>, order: Seq<usize>, w: int, upto: int)
    requires
        0 <= w < upto == order.len(),
    ensures
        picked_size(files, order, upto) == picked_size(files, order.remove(w), upto - 1)
            + files[order[w] as int].size,
    decreases upto,
{
    let rest = order.remove(w);
    if w == upto - 1 {
        lemma_picked_prefix(files, order, rest, upto - 1);
    } else {
        lemma_picked_remove(files, order.drop_last(), w, upto - 1);
        lemma_picked_prefix(files, order, order.drop_last(), upto - 1);
        assert(order.drop_last().remove(w) =~= rest.drop_last());
        lemma_picked_prefix(files, rest, rest.drop_last(), upto - 2);
        assert(rest[upto - 2] == order[upto - 1]);
    }
}

/// Two evictions of the same files to the same budget agree up to the
/// end of the shorter one.
proof fn lemma_evictions_agree_at(
    files: Seq<CacheFile>,
    max_bytes: u64,
    a: Seq<usize>,
    b: Seq<usize>,
    k: int,
)
    requires
        is_eviction(files, max_bytes, a),
        is_eviction(files, max_bytes, b),
        0 <= k < a.len(),
        k < b.len(),
    ensures
        a[k] == b[k],
    decreases k,
{
    assert forall|j: int| 0 <= j < k implies a[j] == b[j] by {
        lemma_evictions_agree_at(files, max_bytes, a, b, j);
    }
    if a[k] != b[k] {
        lemma_goes_first(files, max_bytes, a, b, k);
        lemma_goes_first(files, max_bytes, b, a, k);
        assert(leaves_before(files, a[k] as int, b[k] as int));
        assert(leaves_before(files, b[k] as int, a[k] as int));
    }
}

/// Where two evictions agree on their first `k` victims and differ on the
/// next, the next victim of the first leaves before that of the second.
proof fn lemma_goes_first(
    files: Seq<CacheFile>,
    max_bytes: u64,
    a: Seq<usize>,
    b: Seq<usize>,
    k: int,
)
    requires
        is_eviction(files, max_bytes, a),
        is_eviction(files, max_bytes, b),
        0 <= k < a.len(),
        k < b.len(),
        forall|j: int| 0 <= j < k ==> a[j] == b[j],
        a[k] != b[k],
    ensures
        leaves_before(files, a[k] as int, b[k] as int),
{
    assert(b[k] < files.len());
    if a.contains(b[k]) {
        let j = choose|j: int| 0 <= j < a.len() && a[j] == b[k];
        if j < k {
            assert(b[j] == a[j]);
            assert(leaves_before(files, b[j] as int, b[k] as int));
        } else {
            assert(leaves_before(files, a[k] as int, a[j] as int));
        }
    } else {
        assert((b[k] as int) as usize == b[k]);
        assert(leaves_before(files, a[k] as int, b[k] as int));
    }
}

/// The files and the budget determine the eviction: there is one list of
/// victims and no other.
pub proof fn lemma_eviction_is_unique(
    files: Seq<CacheFile>,
    max_bytes: u64,
    a: Seq<usize>,
    b: Seq<usize>,
)
    requires
        is_eviction(files, max_bytes, a),
        is_eviction(files, max_bytes, b),
    ensures
        a == b,
{
    let n = if a.len() <= b.len() {
        a.len() as int
    } else {
        b.len() as int
    };
    assert forall|k: int| 0 <= k < n implies a[k] == b[k] by {
        lemma_evictions_agree_at(files, max_bytes, a, b, k);
    }
    lemma_picked_prefix(files, a, b, n);
    if a.len() < b.len() {
        assert(total_size(files, files.len() as int) - picked_size(files, b, n) > max_bytes);
    } else if b.len() < a.len() {
        assert(total_size(files, files.len() as int) - picked_size(files, a, n) > max_bytes);
    }
    assert(a =~= b);
}

} // verus!

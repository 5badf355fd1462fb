//! Path values and lexical path arithmetic. An `AnoPath` is a checked value: empty or overlong
//! spellings never become one. Normalization is purely lexical. The platform conditions the
//! file reader and committer report carry the platform's own error codes.
use vstd::prelude::*;
use crate::text::{chars_of, string_of};
use vstd::string::StringSliceAdditionalSpecFns;

verus! {

/// Paths at or above this many bytes are refused.
pub const ANO_PATHSZ: usize = 1024;

/// A resolved path, only constructed through the checked functions below.
#[derive(Debug, Clone)]
pub struct AnoPath {
    pub s: String,
}

/// The UTF-8 byte length of a character sequence.
pub open spec fn byte_len(s: Seq<char>) -> nat {
    vstd::utf8::encode_utf8(s).len()
}

/// Whether a spelling is admissible as a path: nonempty and shorter than `ANO_PATHSZ` bytes.
pub open spec fn path_ok(s: Seq<char>) -> bool {
    s.len() > 0 && byte_len(s) < ANO_PATHSZ
}

/// A checked copy of `s`; `None` when `s` is empty or at least `ANO_PATHSZ` bytes long.
pub fn fs_path(s: &str) -> (r: Option<AnoPath>)
    ensures
        r.is_some() <==> path_ok(s@),
        r matches Some(p) ==> p.s@ == s@,
{
    proof {
        vstd::utf8::encode_utf8_decode_utf8(s@);
    }
    let empty = s.is_empty();
    let n = s.as_bytes().len();
    assert(n == byte_len(s@));
    if empty || n >= ANO_PATHSZ {
        return None;
    }
    Some(AnoPath { s: String::from_str(s) })
}

/// Index one past the last '/' at or before `len`, or 0 when there is none.
pub open spec fn after_last_slash(s: Seq<char>, len: int) -> int
    decreases len,
{
    if len <= 0 {
        0
    } else if s[len - 1] == '/' {
        len
    } else {
        after_last_slash(s, len - 1)
    }
}

/// `len` with trailing '/' characters stripped, never below 1.
pub open spec fn strip_slashes(s: Seq<char>, len: int) -> int
    decreases len,
{
    if len > 1 && s[len - 1] == '/' {
        strip_slashes(s, len - 1)
    } else {
        len
    }
}

/// The directory part of a path: "." when it holds no '/', else everything before its last
/// '/', trailing separators stripped, but "/" kept at the root.
pub open spec fn dirname_spec(s: Seq<char>) -> Seq<char> {
    let cut = after_last_slash(s, s.len() as int);
    if cut == 0 {
        seq!['.']
    } else {
        s.subrange(0, strip_slashes(s, cut))
    }
}

proof fn lemma_after_last_slash(s: Seq<char>, len: int)
    requires
        0 <= len <= s.len(),
    ensures
        0 <= after_last_slash(s, len) <= len,
        after_last_slash(s, len) > 0 ==> s[after_last_slash(s, len) - 1] == '/',
    decreases len,
{
    if len > 0 && s[len - 1] != '/' {
        lemma_after_last_slash(s, len - 1);
    }
}

proof fn lemma_strip_slashes(s: Seq<char>, len: int)
    requires
        1 <= len <= s.len(),
    ensures
        1 <= strip_slashes(s, len) <= len,
    decreases len,
{
    if len > 1 && s[len - 1] == '/' {
        lemma_strip_slashes(s, len - 1);
    }
}

proof fn lemma_after_last_slash_at(s: Seq<char>, len: int, k: int)
    requires
        0 <= k < len <= s.len(),
        s[k] == '/',
        forall|j: int| k < j < len ==> s[j] != '/',
    ensures
        after_last_slash(s, len) == k + 1,
    decreases len,
{
    if len - 1 > k {
        lemma_after_last_slash_at(s, len - 1, k);
    }
}

proof fn lemma_after_last_slash_none(s: Seq<char>, len: int)
    requires
        0 <= len <= s.len(),
        forall|j: int| 0 <= j < len ==> s[j] != '/',
    ensures
        after_last_slash(s, len) == 0,
    decreases len,
{
    if len > 0 {
        lemma_after_last_slash_none(s, len - 1);
    }
}

proof fn lemma_strip_slashes_to(s: Seq<char>, len: int, i0: int)
    requires
        0 <= i0 < len <= s.len(),
        s[i0] != '/',
        forall|j: int| i0 < j < len ==> s[j] == '/',
    ensures
        strip_slashes(s, len) == i0 + 1,
    decreases len,
{
    if len - 1 > i0 {
        lemma_strip_slashes_to(s, len - 1, i0);
    }
}

proof fn lemma_strip_slashes_root(s: Seq<char>, len: int)
    requires
        1 <= len <= s.len(),
        forall|j: int| 0 <= j < len ==> s[j] == '/',
    ensures
        strip_slashes(s, len) == 1,
    decreases len,
{
    if len > 1 {
        lemma_strip_slashes_root(s, len - 1);
    }
}

/// The directory part read through the last '/': "." when there is none; else, with `k`
/// the last '/', everything up to and including the last other character before `k`, or
/// the root "/" alone when nothing but '/' comes up to `k`.
pub proof fn lemma_dirname_through_last_slash(s: Seq<char>)
    ensures
        (forall|i: int| 0 <= i < s.len() ==> s[i] != '/') ==> dirname_spec(s) == seq!['.'],
        forall|k: int, i0: int|
            0 <= i0 < k < s.len() && s[k] == '/' && (forall|j: int| k < j < s.len() ==> s[j] != '/')
                && s[i0] != '/' && (forall|j: int| i0 < j <= k ==> s[j] == '/')
                ==> dirname_spec(s) == #[trigger] s.subrange(0, i0 + 1) && #[trigger] s[k] == '/',
        forall|k: int|
            0 <= k < s.len() && #[trigger] s[k] == '/' && (forall|j: int| k < j < s.len() ==> s[j] != '/')
                && (forall|j: int| 0 <= j <= k ==> s[j] == '/') ==> dirname_spec(s) == s.subrange(0, 1),
{
    if forall|i: int| 0 <= i < s.len() ==> s[i] != '/' {
        lemma_after_last_slash_none(s, s.len() as int);
    }
    assert forall|k: int, i0: int|
        0 <= i0 < k < s.len() && s[k] == '/' && (forall|j: int| k < j < s.len() ==> s[j] != '/')
            && s[i0] != '/' && (forall|j: int| i0 < j <= k ==> s[j] == '/')
            implies dirname_spec(s) == #[trigger] s.subrange(0, i0 + 1) && #[trigger] s[k] == '/' by {
        lemma_after_last_slash_at(s, s.len() as int, k);
        lemma_strip_slashes_to(s, k + 1, i0);
    }
    assert forall|k: int|
        0 <= k < s.len() && #[trigger] s[k] == '/' && (forall|j: int| k < j < s.len() ==> s[j] != '/')
            && (forall|j: int| 0 <= j <= k ==> s[j] == '/') implies dirname_spec(s) == s.subrange(0, 1) by {
        lemma_after_last_slash_at(s, s.len() as int, k);
        lemma_strip_slashes_root(s, k + 1);
    }
}

/// The directory of a path: "." for an empty or slash-free path, "/" kept at the root,
/// trailing separators stripped; `None` only when the path is too long.
pub fn fs_dirname(path: &str) -> (r: Option<AnoPath>)
    ensures
        path@.len() == 0 ==> (r matches Some(p) && p.s@ == seq!['.']),
        path@.len() > 0 ==> (r.is_some() <==> path_ok(path@)),
        path@.len() > 0 ==> (r matches Some(p) ==> p.s@ == dirname_spec(path@)),
{
    if path.is_empty() {
        proof {
            reveal_strlit(".");
        }
        return Some(AnoPath { s: String::from_str(".") });
    }
    let checked = fs_path(path);
    match checked {
        None => None,
        Some(p) => {
            let b = chars_of(p.s.as_str());
            let ghost s = path@;
            let mut len = b.len();
            while len > 0 && b[len - 1] != '/'
                invariant
                    b@ == s,
                    0 <= len <= s.len(),
                    after_last_slash(s, s.len() as int) == after_last_slash(s, len as int),
                decreases len,
            {
                len -= 1;
            }
            if len == 0 {
                proof {
                    reveal_strlit(".");
                }
                return Some(AnoPath { s: String::from_str(".") });
            }
            let ghost cut = len as int;
            while len > 1 && b[len - 1] == '/'
                invariant
                    b@ == s,
                    1 <= len <= cut,
                    cut <= s.len(),
                    strip_slashes(s, cut) == strip_slashes(s, len as int),
                decreases len,
            {
                len -= 1;
            }
            let mut out: Vec<char> = Vec::new();
            let mut k: usize = 0;
            while k < len
                invariant
                    b@ == s,
                    len <= s.len(),
                    0 <= k <= len,
                    out@ =~= s.subrange(0, k as int),
                decreases len - k,
            {
                out.push(b[k]);
                k += 1;
            }
            Some(AnoPath { s: string_of(out.as_slice()) })
        },
    }
}

/// The joined spelling: an absolute `rel` verbatim, else `dir/rel` with an empty `dir` read
/// as ".".
pub open spec fn join_spec(dir: Seq<char>, rel: Seq<char>) -> Seq<char> {
    if rel.len() > 0 && rel[0] == '/' {
        rel
    } else {
        (if dir.len() == 0 {
            seq!['.']
        } else {
            dir
        }) + seq!['/'] + rel
    }
}

/// Joining keeps both parts whole: an absolute `rel` is the result as it stands; a
/// relative `rel` under a named directory gives the directory's every character, then one
/// '/', then `rel`'s every character; under an empty directory, "./" then `rel`.
pub proof fn lemma_join_keeps_parts(dir: Seq<char>, rel: Seq<char>)
    ensures
        rel.len() > 0 && rel[0] == '/' ==> join_spec(dir, rel) == rel,
        !(rel.len() > 0 && rel[0] == '/') && dir.len() > 0 ==> {
            let j = join_spec(dir, rel);
            &&& j.len() == dir.len() + 1 + rel.len()
            &&& forall|i: int| 0 <= i < dir.len() ==> #[trigger] j[i] == dir[i]
            &&& j[dir.len() as int] == '/'
            &&& forall|i: int| 0 <= i < rel.len() ==> j[dir.len() + 1 + i] == #[trigger] rel[i]
        },
        !(rel.len() > 0 && rel[0] == '/') && dir.len() == 0 ==> join_spec(dir, rel) == seq!['.', '/'] + rel,
{
    if !(rel.len() > 0 && rel[0] == '/') && dir.len() == 0 {
        assert(seq!['.'] + seq!['/'] + rel =~= seq!['.', '/'] + rel);
    }
    if !(rel.len() > 0 && rel[0] == '/') && dir.len() > 0 {
        let j = join_spec(dir, rel);
        assert forall|i: int| 0 <= i < rel.len() implies j[dir.len() + 1 + i] == #[trigger] rel[i] by {
            assert(j == dir + seq!['/'] + rel);
        }
    }
}

/// `dir/rel`, or `rel` itself when absolute; `None` when the result is not a valid path.
pub fn fs_join(dir: &str, rel: &str) -> (r: Option<AnoPath>)
    ensures
        r.is_some() <==> path_ok(join_spec(dir@, rel@)),
        r matches Some(p) ==> p.s@ == join_spec(dir@, rel@),
        r matches Some(p) ==> (rel@.len() > 0 && rel@[0] == '/' ==> p.s@ == rel@),
        r matches Some(p) ==> (!(rel@.len() > 0 && rel@[0] == '/') && dir@.len() > 0 ==> p.s@ == dir@
            + seq!['/'] + rel@),
        r matches Some(p) ==> (!(rel@.len() > 0 && rel@[0] == '/') && dir@.len() == 0 ==> p.s@ == seq![
            '.',
            '/',
        ] + rel@),
{
    let rc = chars_of(rel);
    if rc.len() > 0 && rc[0] == '/' {
        return fs_path(rel);
    }
    let mut v: Vec<char> = chars_of(dir);
    if v.len() == 0 {
        v.push('.');
    }
    v.push('/');
    let mut k: usize = 0;
    let ghost head = v@;
    while k < rc.len()
        invariant
            0 <= k <= rc@.len(),
            v@ =~= head + rc@.subrange(0, k as int),
        decreases rc@.len() - k,
    {
        v.push(rc[k]);
        k += 1;
    }
    assert(v@ =~= join_spec(dir@, rel@));
    let s = string_of(v.as_slice());
    fs_path(s.as_str())
}

/* ---------- lexical normalization ---------- */

/// One segment's effect on the kept-segment stack: empty and "." segments vanish; ".." pops
/// a real segment (never a kept ".."); a ".." at the root of an absolute path vanishes;
/// anything else is kept.
pub open spec fn norm_step(stack: Seq<Seq<char>>, seg: Seq<char>, abs: bool) -> Seq<Seq<char>> {
    if seg.len() == 0 || seg == seq!['.'] {
        stack
    } else if seg == seq!['.', '.'] && stack.len() > 0 && stack.last() != seq!['.', '.'] {
        stack.drop_last()
    } else if seg == seq!['.', '.'] && abs && stack.len() == 0 {
        stack
    } else {
        stack.push(seg)
    }
}

/// The kept-segment stack after reading `s[i..]`, `cur` being the segment read so far.
pub open spec fn norm_scan(
    s: Seq<char>,
    i: int,
    cur: Seq<char>,
    stack: Seq<Seq<char>>,
    abs: bool,
) -> Seq<Seq<char>>
    decreases s.len() - i,
{
    if i >= s.len() {
        norm_step(stack, cur, abs)
    } else if s[i] == '/' {
        norm_scan(s, i + 1, Seq::empty(), norm_step(stack, cur, abs), abs)
    } else {
        norm_scan(s, i + 1, cur.push(s[i]), stack, abs)
    }
}

/// Segments joined by '/'.
pub open spec fn join_segs(st: Seq<Seq<char>>) -> Seq<char>
    decreases st.len(),
{
    if st.len() == 0 {
        Seq::empty()
    } else if st.len() == 1 {
        st[0]
    } else {
        join_segs(st.drop_last()) + seq!['/'] + st.last()
    }
}

/// The lexical normal form of a nonempty path.
pub open spec fn norm_spec(s: Seq<char>) -> Seq<char> {
    let abs = s[0] == '/';
    let st = norm_scan(s, if abs {
        1
    } else {
        0
    }, Seq::empty(), Seq::empty(), abs);
    if abs {
        seq!['/'] + join_segs(st)
    } else if st.len() == 0 {
        seq!['.']
    } else {
        join_segs(st)
    }
}

/// Total room the segments take when each is followed by one separator.
pub open spec fn seg_weight(st: Seq<Seq<char>>) -> nat
    decreases st.len(),
{
    if st.len() == 0 {
        0
    } else {
        seg_weight(st.drop_last()) + st.last().len() + 1
    }
}

proof fn lemma_join_len(st: Seq<Seq<char>>)
    requires
        st.len() > 0,
    ensures
        join_segs(st).len() + 1 == seg_weight(st),
    decreases st.len(),
{
    if st.len() > 1 {
        lemma_join_len(st.drop_last());
    } else {
        assert(st.drop_last().len() == 0);
        assert(seg_weight(st.drop_last()) == 0);
        assert(st.last() == st[0]);
    }
}

proof fn lemma_norm_step_weight(stack: Seq<Seq<char>>, seg: Seq<char>, abs: bool)
    ensures
        seg_weight(norm_step(stack, seg, abs)) <= seg_weight(stack) + seg.len() + 1,
{
    assert(stack.push(seg).drop_last() =~= stack);
    assert(stack.push(seg).last() == seg);
}

proof fn lemma_norm_scan_weight(
    s: Seq<char>,
    i: int,
    cur: Seq<char>,
    stack: Seq<Seq<char>>,
    abs: bool,
    start: int,
)
    requires
        0 <= start <= i <= s.len(),
        seg_weight(stack) + cur.len() <= i - start,
    ensures
        seg_weight(norm_scan(s, i, cur, stack, abs)) <= s.len() - start + 1,
    decreases s.len() - i,
{
    if i >= s.len() {
        lemma_norm_step_weight(stack, cur, abs);
    } else if s[i] == '/' {
        lemma_norm_step_weight(stack, cur, abs);
        lemma_norm_scan_weight(s, i + 1, Seq::empty(), norm_step(stack, cur, abs), abs, start);
    } else {
        lemma_norm_scan_weight(s, i + 1, cur.push(s[i]), stack, abs, start);
    }
}

/// Lexical normalization never lengthens a path.
pub proof fn lemma_norm_shrinks(s: Seq<char>)
    requires
        s.len() > 0,
    ensures
        norm_spec(s).len() <= s.len(),
{
    let abs = s[0] == '/';
    let start: int = if abs {
        1
    } else {
        0
    };
    lemma_norm_scan_weight(s, start, Seq::empty(), Seq::empty(), abs, start);
    let st = norm_scan(s, start, Seq::empty(), Seq::empty(), abs);
    if st.len() > 0 {
        lemma_join_len(st);
    }
}

/// A segment without separators.
pub open spec fn no_slash(seg: Seq<char>) -> bool {
    forall|j: int| 0 <= j < seg.len() ==> seg[j] != '/'
}

/// A kept-segment stack that reading its own segments back would rebuild: each segment has
/// no separator and is kept, as it stands, on top of the segments before it.
pub open spec fn stack_normal(st: Seq<Seq<char>>, abs: bool) -> bool {
    forall|k: int|
        0 <= k < st.len() ==> no_slash(#[trigger] st[k]) && norm_step(st.take(k), st[k], abs) == st.take(
            k + 1,
        )
}

proof fn lemma_norm_step_normal(stack: Seq<Seq<char>>, seg: Seq<char>, abs: bool)
    requires
        stack_normal(stack, abs),
        no_slash(seg),
    ensures
        stack_normal(norm_step(stack, seg, abs), abs),
{
    let r = norm_step(stack, seg, abs);
    if seg.len() == 0 || seg == seq!['.'] {
    } else if seg == seq!['.', '.'] && stack.len() > 0 && stack.last() != seq!['.', '.'] {
        assert forall|k: int| 0 <= k < r.len() implies no_slash(#[trigger] r[k]) && norm_step(r.take(k), r[k], abs) == r.take(k + 1) by {
            assert(r.take(k) =~= stack.take(k));
            assert(r.take(k + 1) =~= stack.take(k + 1));
            assert(r[k] == stack[k]);
        }
    } else if seg == seq!['.', '.'] && abs && stack.len() == 0 {
    } else {
        assert forall|k: int| 0 <= k < r.len() implies no_slash(#[trigger] r[k]) && norm_step(r.take(k), r[k], abs) == r.take(k + 1) by {
            if k < stack.len() {
                assert(r.take(k) =~= stack.take(k));
                assert(r.take(k + 1) =~= stack.take(k + 1));
                assert(r[k] == stack[k]);
            } else {
                assert(r.take(k) =~= stack);
                assert(r.take(k + 1) =~= r);
            }
        }
    }
}

proof fn lemma_norm_scan_normal(s: Seq<char>, i: int, cur: Seq<char>, stack: Seq<Seq<char>>, abs: bool)
    requires
        0 <= i,
        stack_normal(stack, abs),
        no_slash(cur),
    ensures
        stack_normal(norm_scan(s, i, cur, stack, abs), abs),
    decreases s.len() - i,
{
    if i >= s.len() {
        lemma_norm_step_normal(stack, cur, abs);
    } else if s[i] == '/' {
        lemma_norm_step_normal(stack, cur, abs);
        lemma_norm_scan_normal(s, i + 1, Seq::empty(), norm_step(stack, cur, abs), abs);
    } else {
        lemma_norm_scan_normal(s, i + 1, cur.push(s[i]), stack, abs);
    }
}

/// Reading a separator-free run moves it onto the current segment.
proof fn lemma_scan_run(s: Seq<char>, o: int, seg: Seq<char>, cur: Seq<char>, stack: Seq<Seq<char>>, abs: bool)
    requires
        0 <= o,
        o + seg.len() <= s.len(),
        s.subrange(o, o + seg.len()) == seg,
        no_slash(seg),
    ensures
        norm_scan(s, o, cur, stack, abs) == norm_scan(s, o + seg.len(), cur + seg, stack, abs),
    decreases seg.len(),
{
    if seg.len() == 0 {
        assert(cur + seg =~= cur);
    } else {
        assert(s[o] == seg[0]);
        let rest = seg.skip(1);
        assert(s.subrange(o + 1, o + 1 + rest.len()) =~= rest);
        lemma_scan_run(s, o + 1, rest, cur.push(s[o]), stack, abs);
        assert(cur.push(s[o]) + rest =~= cur + seg);
    }
}

proof fn lemma_join_first(st: Seq<Seq<char>>)
    requires
        st.len() > 0,
        st[0].len() > 0,
    ensures
        join_segs(st).len() > 0,
        join_segs(st)[0] == st[0][0],
    decreases st.len(),
{
    if st.len() > 1 {
        lemma_join_first(st.drop_last());
    }
}

/// Reading the joined segments of a normal stack rebuilds it, up to its top segment.
proof fn lemma_scan_join(s: Seq<char>, o: int, p: Seq<Seq<char>>, abs: bool)
    requires
        0 <= o,
        p.len() > 0,
        stack_normal(p, abs),
        o + join_segs(p).len() <= s.len(),
        s.subrange(o, o + join_segs(p).len()) == join_segs(p),
    ensures
        norm_scan(s, o, Seq::empty(), Seq::empty(), abs) == norm_scan(
            s,
            o + join_segs(p).len(),
            p.last(),
            p.drop_last(),
            abs,
        ),
    decreases p.len(),
{
    assert(no_slash(p[p.len() - 1]));
    if p.len() == 1 {
        lemma_scan_run(s, o, p[0], Seq::empty(), Seq::empty(), abs);
        assert(Seq::<char>::empty() + p[0] =~= p[0]);
        assert(p.drop_last() =~= Seq::<Seq<char>>::empty());
    } else {
        let q = p.drop_last();
        let jq = join_segs(q);
        let last = p.last();
        assert(join_segs(p) == jq + seq!['/'] + last);
        assert forall|k: int| 0 <= k < q.len() implies no_slash(#[trigger] q[k]) && norm_step(q.take(k), q[k], abs) == q.take(k + 1) by {
            assert(q[k] == p[k]);
            assert(q.take(k) =~= p.take(k));
            assert(q.take(k + 1) =~= p.take(k + 1));
        }
        assert(s.subrange(o, o + jq.len()) =~= jq) by {
            assert forall|j: int| 0 <= j < jq.len() implies s.subrange(o, o + jq.len())[j] == jq[j] by {
                assert(s.subrange(o, o + join_segs(p).len())[j] == join_segs(p)[j]);
            }
        }
        lemma_scan_join(s, o, q, abs);
        let m = o + jq.len();
        assert(s[m] == '/') by {
            assert(s.subrange(o, o + join_segs(p).len())[jq.len() as int] == join_segs(p)[jq.len() as int]);
        }
        let k = q.len() - 1;
        assert(q.take(k) =~= q.drop_last());
        assert(q.take(k + 1) =~= q);
        assert(norm_step(q.drop_last(), q.last(), abs) == q);
        assert(s.subrange(m + 1, m + 1 + last.len()) =~= last) by {
            assert forall|j: int| 0 <= j < last.len() implies s.subrange(m + 1, m + 1 + last.len())[j] == last[j] by {
                assert(s.subrange(o, o + join_segs(p).len())[jq.len() + 1 + j] == join_segs(p)[jq.len() + 1 + j]);
            }
        }
        lemma_scan_run(s, m + 1, last, Seq::empty(), q, abs);
        assert(Seq::<char>::empty() + last =~= last);
    }
}

proof fn lemma_scan_normal_whole(s: Seq<char>, o: int, p: Seq<Seq<char>>, abs: bool)
    requires
        0 <= o,
        p.len() > 0,
        stack_normal(p, abs),
        o + join_segs(p).len() == s.len(),
        s.subrange(o, s.len() as int) == join_segs(p),
    ensures
        norm_scan(s, o, Seq::empty(), Seq::empty(), abs) == p,
{
    lemma_scan_join(s, o, p, abs);
    let k = p.len() - 1;
    assert(p.take(k) =~= p.drop_last());
    assert(p.take(k + 1) =~= p);
    assert(no_slash(p[k]));
}

/// Normalizing is idempotent: a normal form normalizes to itself.
pub proof fn lemma_norm_idempotent(s: Seq<char>)
    requires
        s.len() > 0,
    ensures
        norm_spec(norm_spec(s)) == norm_spec(s),
{
    let abs = s[0] == '/';
    let start: int = if abs { 1 } else { 0 };
    let st = norm_scan(s, start, Seq::empty(), Seq::empty(), abs);
    let e = Seq::<Seq<char>>::empty();
    lemma_norm_scan_normal(s, start, Seq::empty(), e, abs);
    let n = norm_spec(s);
    if abs {
        assert(n == seq!['/'] + join_segs(st));
        assert(n[0] == '/');
        if st.len() == 0 {
            assert(n =~= seq!['/']);
        } else {
            assert(n.subrange(1, n.len() as int) =~= join_segs(st));
            lemma_scan_normal_whole(n, 1, st, true);
        }
    } else if st.len() == 0 {
        assert(n == seq!['.']);
        assert(norm_step(e, seq!['.'], false) == e);
        assert(norm_scan(n, 1, seq!['.'], e, false) == e);
        assert(Seq::<char>::empty().push('.') =~= seq!['.']);
    } else {
        assert(no_slash(st[0]));
        assert(norm_step(st.take(0), st[0], false) == st.take(1));
        assert(st.take(0) =~= e);
        lemma_join_first(st);
        assert(n[0] != '/');
        assert(n.subrange(0, n.len() as int) =~= n);
        lemma_scan_normal_whole(n, 0, st, false);
    }
}

/// The segments a normal form keeps, as read from `s`.
pub open spec fn norm_segments(s: Seq<char>) -> Seq<Seq<char>> {
    let abs = s[0] == '/';
    norm_scan(s, if abs { 1 } else { 0 }, Seq::empty(), Seq::empty(), abs)
}

proof fn lemma_normal_segments(st: Seq<Seq<char>>, abs: bool)
    requires
        stack_normal(st, abs),
    ensures
        forall|k: int|
            0 <= k < st.len() ==> {
                &&& (#[trigger] st[k]).len() > 0
                &&& no_slash(st[k])
                &&& st[k] != seq!['.']
                &&& (st[k] == seq!['.', '.'] ==> !abs && forall|j: int| 0 <= j < k ==> st[j] == seq!['.', '.'])
            },
{
    assert forall|k: int| 0 <= k < st.len() implies {
        &&& (#[trigger] st[k]).len() > 0
        &&& no_slash(st[k])
        &&& st[k] != seq!['.']
        &&& (st[k] == seq!['.', '.'] ==> !abs && forall|j: int| 0 <= j < k ==> st[j] == seq!['.', '.'])
    } by {
        lemma_normal_dotdot(st, abs, k);
    }
}

proof fn lemma_normal_dotdot(st: Seq<Seq<char>>, abs: bool, k: int)
    requires
        stack_normal(st, abs),
        0 <= k < st.len(),
    ensures
        st[k].len() > 0,
        no_slash(st[k]),
        st[k] != seq!['.'],
        st[k] == seq!['.', '.'] ==> !abs && forall|j: int| 0 <= j < k ==> st[j] == seq!['.', '.'],
    decreases k,
{
    assert(no_slash(st[k]) && norm_step(st.take(k), st[k], abs) == st.take(k + 1));
    let t = st.take(k);
    assert(st.take(k + 1).len() == k + 1);
    if st[k] == seq!['.', '.'] {
        assert(!(t.len() > 0 && t.last() != seq!['.', '.']));
        if k > 0 {
            assert(t.last() == st[k - 1]);
            lemma_normal_dotdot(st, abs, k - 1);
            assert forall|j: int| 0 <= j < k implies st[j] == seq!['.', '.'] by {
                if j < k - 1 {
                } else {
                    assert(st[j] == st[k - 1]);
                }
            }
        } else {
            assert(!abs);
        }
    }
}

/// The shape of a normal form: it is never empty, it is absolute exactly when the path is,
/// and its segments (after the root "/" when absolute; "." standing for none when relative)
/// are never empty, never ".", free of separators, with ".." only in a leading run and never
/// in an absolute path.
pub proof fn lemma_norm_shape(s: Seq<char>)
    requires
        s.len() > 0,
    ensures
        norm_spec(s).len() > 0,
        (norm_spec(s)[0] == '/') == (s[0] == '/'),
        norm_spec(s) == if s[0] == '/' {
            seq!['/'] + join_segs(norm_segments(s))
        } else if norm_segments(s).len() == 0 {
            seq!['.']
        } else {
            join_segs(norm_segments(s))
        },
        forall|k: int|
            0 <= k < norm_segments(s).len() ==> {
                &&& (#[trigger] norm_segments(s)[k]).len() > 0
                &&& no_slash(norm_segments(s)[k])
                &&& norm_segments(s)[k] != seq!['.']
                &&& (norm_segments(s)[k] == seq!['.', '.'] ==> s[0] != '/' && forall|j: int|
                    0 <= j < k ==> norm_segments(s)[j] == seq!['.', '.'])
            },
{
    let abs = s[0] == '/';
    let st = norm_segments(s);
    lemma_norm_scan_normal(s, if abs { 1 } else { 0 }, Seq::empty(), Seq::empty(), abs);
    lemma_normal_segments(st, abs);
    if !abs && st.len() > 0 {
        lemma_join_first(st);
        assert(no_slash(st[0]));
    }
}

fn is_dot(v: &Vec<char>) -> (b: bool)
    ensures
        b == (v@ == seq!['.']),
{
    let r = v.len() == 1 && v[0] == '.';
    proof {
        if v@.len() == 1 && v@[0] == '.' {
            assert(v@ =~= seq!['.']);
        }
    }
    r
}

fn is_dotdot(v: &Vec<char>) -> (b: bool)
    ensures
        b == (v@ == seq!['.', '.']),
{
    let r = v.len() == 2 && v[0] == '.' && v[1] == '.';
    proof {
        if v@.len() == 2 && v@[0] == '.' && v@[1] == '.' {
            assert(v@ =~= seq!['.', '.']);
        }
    }
    r
}

fn apply_step(stack: &mut Vec<Vec<char>>, seg: Vec<char>, abs: bool)
    ensures
        final(stack)@.map_values(|v: Vec<char>| v@) == norm_step(
            old(stack)@.map_values(|v: Vec<char>| v@),
            seg@,
            abs,
        ),
{
    let ghost before = stack@.map_values(|v: Vec<char>| v@);
    let dotdot = is_dotdot(&seg);
    if seg.len() == 0 || is_dot(&seg) {
        return;
    }
    if dotdot && stack.len() > 0 {
        let last_dotdot = is_dotdot(&stack[stack.len() - 1]);
        if !last_dotdot {
            stack.pop();
            assert(stack@.map_values(|v: Vec<char>| v@) =~= before.drop_last());
            return;
        }
    }
    if dotdot && abs && stack.len() == 0 {
        return;
    }
    stack.push(seg);
    assert(stack@.map_values(|v: Vec<char>| v@) =~= before.push(seg@));
}

fn join_stack(stack: &Vec<Vec<char>>) -> (v: Vec<char>)
    ensures
        v@ == join_segs(stack@.map_values(|x: Vec<char>| x@)),
{
    let mut out: Vec<char> = Vec::new();
    let mut k: usize = 0;
    let ghost st = stack@.map_values(|x: Vec<char>| x@);
    while k < stack.len()
        invariant
            0 <= k <= stack@.len(),
            st == stack@.map_values(|x: Vec<char>| x@),
            out@ == join_segs(st.subrange(0, k as int)),
        decreases stack@.len() - k,
    {
        let ghost before = out@;
        if k > 0 {
            out.push('/');
        }
        let seg = &stack[k];
        let mut j: usize = 0;
        let ghost mid = out@;
        while j < seg.len()
            invariant
                0 <= j <= seg@.len(),
                out@ =~= mid + seg@.subrange(0, j as int),
            decreases seg@.len() - j,
        {
            out.push(seg[j]);
            j += 1;
        }
        proof {
            let sub = st.subrange(0, k + 1);
            assert(sub.drop_last() =~= st.subrange(0, k as int));
            assert(sub.last() == seg@);
            if k == 0 {
                assert(out@ =~= join_segs(sub));
            } else {
                assert(out@ =~= join_segs(sub));
            }
        }
        k += 1;
    }
    assert(st.subrange(0, stack@.len() as int) =~= st);
    out
}

/// Lexical "." / ".." collapse, in place and without filesystem access: "." and empty
/// segments drop; ".." pops a real segment but never a kept ".."; leading ".."s survive on
/// relative paths and clamp at the root of absolute ones; a relative path that collapses to
/// nothing becomes ".". An empty path is left as it is.
pub fn fs_norm(p: &mut AnoPath)
    ensures
        old(p).s@.len() == 0 ==> final(p).s@ == old(p).s@,
        old(p).s@.len() > 0 ==> final(p).s@ == norm_spec(old(p).s@),
        final(p).s@.len() <= old(p).s@.len(),
{
    let b = chars_of(p.s.as_str());
    if b.len() == 0 {
        return;
    }
    let ghost s = b@;
    let abs = b[0] == '/';
    let start: usize = if abs {
        1
    } else {
        0
    };
    let mut stack: Vec<Vec<char>> = Vec::new();
    let mut cur: Vec<char> = Vec::new();
    let mut i = start;
    assert(cur@ =~= Seq::<char>::empty());
    assert(stack@.map_values(|v: Vec<char>| v@) =~= Seq::<Seq<char>>::empty());
    while i < b.len()
        invariant
            b@ == s,
            s.len() > 0,
            abs == (s[0] == '/'),
            start <= i <= s.len(),
            norm_scan(s, start as int, Seq::empty(), Seq::empty(), abs) == norm_scan(
                s,
                i as int,
                cur@,
                stack@.map_values(|v: Vec<char>| v@),
                abs,
            ),
        decreases s.len() - i,
    {
        if b[i] == '/' {
            let seg = cur;
            cur = Vec::new();
            apply_step(&mut stack, seg, abs);
            assert(cur@ =~= Seq::<char>::empty());
        } else {
            cur.push(b[i]);
        }
        i += 1;
    }
    apply_step(&mut stack, cur, abs);
    let joined = join_stack(&stack);
    let out: Vec<char> = if abs {
        let mut v: Vec<char> = Vec::new();
        v.push('/');
        let mut k: usize = 0;
        while k < joined.len()
            invariant
                0 <= k <= joined@.len(),
                v@ =~= seq!['/'] + joined@.subrange(0, k as int),
            decreases joined@.len() - k,
        {
            v.push(joined[k]);
            k += 1;
        }
        v
    } else if stack.len() == 0 {
        let mut v: Vec<char> = Vec::new();
        v.push('.');
        v
    } else {
        joined
    };
    proof {
        if abs {
            assert(out@ =~= seq!['/'] + joined@);
        } else if stack@.len() == 0 {
            assert(out@ =~= seq!['.']);
        }
        assert(out@ =~= norm_spec(s));
        lemma_norm_shrinks(s);
    }
    p.s = string_of(out.as_slice());
}

/// The directory of an executable's path: everything before its last '/', that slash
/// dropped but "/" kept at the root; `None` when there is no '/' or the result is too long.
pub fn exe_dir_of(exe: &str) -> (r: Option<AnoPath>)
    ensures
        ({
            let cut = after_last_slash(exe@, exe@.len() as int);
            let len = if cut > 1 {
                cut - 1
            } else {
                cut
            };
            &&& r.is_some() <==> (len > 0 && byte_len(exe@.subrange(0, len)) < ANO_PATHSZ)
            &&& r matches Some(p) ==> p.s@ == exe@.subrange(0, len)
        }),
{
    let b = chars_of(exe);
    let ghost s = b@;
    let mut len = b.len();
    while len > 0 && b[len - 1] != '/'
        invariant
            b@ == s,
            0 <= len <= s.len(),
            after_last_slash(s, s.len() as int) == after_last_slash(s, len as int),
        decreases len,
    {
        len -= 1;
    }
    if len > 1 {
        len -= 1;
    }
    let mut out: Vec<char> = Vec::new();
    let mut k: usize = 0;
    while k < len
        invariant
            b@ == s,
            len <= s.len(),
            0 <= k <= len,
            out@ =~= s.subrange(0, k as int),
        decreases len - k,
    {
        out.push(b[k]);
        k += 1;
    }
    let text = string_of(out.as_slice());
    if len == 0 {
        return None;
    }
    fs_path(text.as_str())
}

/* ---------- platform conditions ---------- */

/// One filesystem condition the reader and the committer report.
pub enum FsCondition {
    /// the path names a directory where a file is required
    IsADirectory,
    /// the path names something that is not a usable file
    NotAFile,
    /// the constructed name exceeds what the platform accepts
    NameTooLong,
    /// an underlying operation failed without reporting a cause
    Unattributed,
}

#[verifier::external_type_specification]
#[verifier::external_body]
pub struct ExIoError(std::io::Error);

/// `libc::EISDIR`: the platform's code for "is a directory"; nonzero on every platform libc defines it
/// for (its value differs between platforms, and is negative on some).
#[verifier::external_body]
fn code_is_a_directory() -> (c: i32)
    ensures
        c != 0,
{
    libc::EISDIR
}

/// `libc::EINVAL`: the platform's code for "invalid argument"; nonzero on every platform libc defines it
/// for (its value differs between platforms, and is negative on some).
#[verifier::external_body]
fn code_invalid() -> (c: i32)
    ensures
        c != 0,
{
    libc::EINVAL
}

/// `libc::ENAMETOOLONG`: the platform's code for "file name too long"; nonzero on every platform libc defines it
/// for (its value differs between platforms, and is negative on some).
#[verifier::external_body]
fn code_name_too_long() -> (c: i32)
    ensures
        c != 0,
{
    libc::ENAMETOOLONG
}

/// `libc::EIO`: the platform's code for an input/output error; nonzero on every platform libc
/// defines it for (its value differs between platforms, and is negative on some).
#[verifier::external_body]
fn code_io() -> (c: i32)
    ensures
        c != 0,
{
    libc::EIO
}

/// What an `io::Error` holds that the path layer reads: the platform code it carries, if
/// any (what `io::Error::raw_os_error` reports).
pub uninterp spec fn os_code(e: std::io::Error) -> Option<i32>;

/// `std::io::Error::from_raw_os_error`: an error carrying the given platform code; std
/// documents that `raw_os_error` reports the code of an error built this way.
#[verifier::external_body]
fn error_from_code(code: i32) -> (r: std::io::Error)
    ensures
        os_code(r) == Some(code),
{
    std::io::Error::from_raw_os_error(code)
}

/// `std::io::Error::raw_os_error`: the platform code an error carries, if any.
#[verifier::external_body]
fn raw_code(e: &std::io::Error) -> (r: Option<i32>)
    ensures
        r == os_code(*e),
{
    e.raw_os_error()
}

/// The platform code of a condition: `EISDIR`, `EINVAL`, `ENAMETOOLONG` or `EIO` as libc
/// defines them for the target; nonzero on every platform.
///
/// The codes are libc's on every target this library builds for. A non-Unix platform has
/// codes of its own for these conditions (Windows: 5, 87, 206 and 1117); choosing them
/// would be a choice made by target, and this library holds one body for all targets, so a
/// non-Unix build takes its codes from libc as well.
pub fn condition_code(which: FsCondition) -> (c: i32)
    ensures
        c != 0,
{
    match which {
        FsCondition::IsADirectory => code_is_a_directory(),
        FsCondition::NotAFile => code_invalid(),
        FsCondition::NameTooLong => code_name_too_long(),
        FsCondition::Unattributed => code_io(),
    }
}

/// An `io::Error` carrying the platform's own code for the condition (`condition_code`).
pub fn condition(which: FsCondition) -> (r: std::io::Error)
    ensures
        os_code(r) matches Some(c) && c != 0,
{
    let code = condition_code(which);
    error_from_code(code)
}

/// The error itself when it already carries a platform code, the unattributed-failure
/// condition otherwise; either way the result carries a platform code.
pub fn os_or_eio(e: std::io::Error) -> (r: std::io::Error)
    ensures
        os_code(e) is Some ==> r == e,
        os_code(e) is None ==> (os_code(r) matches Some(c) && c != 0),
        os_code(r) is Some,
{
    if raw_code(&e).is_some() {
        e
    } else {
        condition(FsCondition::Unattributed)
    }
}

/// The Rust-added decoration " (os error <code>)".
pub open spec fn os_suffix(code: i32) -> Seq<char> {
    " (os error "@ + crate::text::int_spelling(code as int) + ")"@
}

/// The rendered text without the decoration std appends after the platform's own words: the
/// text minus a trailing " (os error <code>)" when it ends so, else the text unchanged.
pub open spec fn strip_os_suffix_spec(text: Seq<char>, code: Option<i32>) -> Seq<char> {
    match code {
        None => text,
        Some(c) => if os_suffix(c).is_suffix_of(text) {
            text.subrange(0, text.len() - os_suffix(c).len())
        } else {
            text
        },
    }
}

/// Removes std's " (os error <code>)" decoration from a rendered error text.
pub fn strip_os_suffix(text: &str, code: Option<i32>) -> (r: String)
    ensures
        r@ == strip_os_suffix_spec(text@, code),
{
    match code {
        None => String::from_str(text),
        Some(c) => {
            let num = crate::text::i64_text(c as i64);
            let head = crate::text::cat(" (os error ", num.as_str());
            let suffix = crate::text::cat(head.as_str(), ")");
            proof {
                reveal_strlit(" (os error ");
                reveal_strlit(")");
                assert(suffix@ =~= os_suffix(c));
            }
            let t = chars_of(text);
            let sfx = chars_of(suffix.as_str());
            if sfx.len() > t.len() {
                proof {
                    assert(!os_suffix(c).is_suffix_of(text@));
                }
                return String::from_str(text);
            }
            let off = t.len() - sfx.len();
            let mut k: usize = 0;
            while k < sfx.len()
                invariant
                    t@ == text@,
                    t@.len() == t.len(),
                    code == Some(c),
                    sfx@ == os_suffix(c),
                    off + sfx@.len() == t@.len(),
                    0 <= k <= sfx@.len(),
                    forall|j: int| 0 <= j < k ==> t@[off + j] == sfx@[j],
                decreases sfx@.len() - k,
            {
                if t[off + k] != sfx[k] {
                    proof {
                        if os_suffix(c).is_suffix_of(text@) {
                            assert(text@.subrange(off as int, text@.len() as int)[k as int]
                                == t@[off + k]);
                            assert(sfx@[k as int] == t@[off + k]);
                        }
                        assert(!os_suffix(c).is_suffix_of(text@));
                        assert(strip_os_suffix_spec(text@, code) == text@);
                    }
                    return String::from_str(text);
                }
                k += 1;
            }
            proof {
                assert(text@.subrange(off as int, text@.len() as int) =~= os_suffix(c));
            }
            let mut out: Vec<char> = Vec::new();
            let mut j: usize = 0;
            while j < off
                invariant
                    t@ == text@,
                    off <= t@.len(),
                    0 <= j <= off,
                    out@ =~= t@.subrange(0, j as int),
                decreases off - j,
            {
                out.push(t[j]);
                j += 1;
            }
            string_of(out.as_slice())
        },
    }
}

/// The platform's own message text for an error: what the error's `to_string` renders, with
/// std's " (os error <code>)" decoration removed when the error carries a platform code (see
/// `strip_os_suffix_spec`). What the rendering says is std's and the platform's.
pub fn strerror(e: &std::io::Error) -> (r: String)
    ensures
        exists|t: String|
            vstd::string::to_string_from_display_ensures::<std::io::Error>(e, t) && r@
                == strip_os_suffix_spec(t@, os_code(*e)),
{
    let text = e.to_string();
    let code = raw_code(e);
    strip_os_suffix(text.as_str(), code)
}

} // verus!

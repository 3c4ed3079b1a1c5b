//! Unix path text: components, joining, and making a path relative to the
//! reservoir root, as `std::path::Path` treats them.
//!
//! A path splits at `/` into segments. Its components are: the root (written
//! `/`) when it starts with `/`; a leading `.` segment of a relative path
//! (written `.`); then every other segment that is neither empty nor `.`.

use vstd::prelude::*;
use crate::text::{
    chars_of, lit, push_all, slice_chars, split_char, split_char_exec, string_of, chars_eq,
    replace_char, replace_char_exec, ends_with, ends_with_exec,
};
use crate::seal::strings_view;
use crate::rules::{parse_rules, rules_view};
use crate::text::lines;

verus! {

/// The segments of path text between `/`s.
pub open spec fn segs(s: Seq<char>) -> Seq<Seq<char>> {
    split_char(s, '/')
}

/// Whether the path starts at the root.
pub open spec fn has_root(s: Seq<char>) -> bool {
    s.len() > 0 && s[0] == '/'
}

/// Whether a relative path starts with a `.` segment.
pub open spec fn cur_start(s: Seq<char>) -> bool {
    !has_root(s) && segs(s).len() > 0 && segs(s)[0] == "."@
}

/// Whether a segment is a component of its own (neither empty nor `.`).
pub open spec fn is_normal_seg(x: Seq<char>) -> bool {
    x != Seq::<char>::empty() && x != "."@
}

/// The segments of a list that are components.
pub open spec fn normals(q: Seq<Seq<char>>) -> Seq<Seq<char>>
    decreases q.len(),
{
    if q.len() == 0 {
        seq![]
    } else if is_normal_seg(q.last()) {
        normals(q.drop_last()).push(q.last())
    } else {
        normals(q.drop_last())
    }
}

/// How many leading segments stand for the root or a leading `.`.
pub open spec fn lead(s: Seq<char>) -> int {
    if has_root(s) || cur_start(s) { 1 } else { 0 }
}

/// The components of path text, as `Path::components` yields them.
pub open spec fn components(s: Seq<char>) -> Seq<Seq<char>> {
    let head: Seq<Seq<char>> = if has_root(s) {
        seq!["/"@]
    } else if cur_start(s) {
        seq!["."@]
    } else {
        seq![]
    };
    head + normals(segs(s).subrange(lead(s), segs(s).len() as int))
}

/// `base` joined with `p`, as `Path::join` does: an absolute `p` replaces
/// `base`; otherwise a `/` separates them unless `base` is empty or ends in one.
pub open spec fn join_path(base: Seq<char>, p: Seq<char>) -> Seq<char> {
    if has_root(p) {
        p
    } else if base.len() == 0 || base.last() == '/' {
        base + p
    } else {
        base + "/"@ + p
    }
}

/// `base` joined with `p`.
pub fn join_path_exec(base: &[char], p: &[char]) -> (r: Vec<char>)
    ensures
        r@ == join_path(base@, p@),
{
    if p.len() > 0 && p[0] == '/' {
        return slice_chars(p, 0, p.len());
    }
    let mut r = slice_chars(base, 0, base.len());
    if base.len() > 0 && base[base.len() - 1] != '/' {
        r.push('/');
        assert(r@ =~= base@ + "/"@) by {
            reveal_strlit("/");
        }
    }
    push_all(&mut r, p);
    r
}

/// Leading segments dropped while they are empty or `.`.
pub open spec fn trim_front_segs(q: Seq<Seq<char>>) -> Seq<Seq<char>>
    decreases q.len(),
{
    if q.len() > 0 && !is_normal_seg(q[0]) {
        trim_front_segs(q.drop_first())
    } else {
        q
    }
}

/// Trailing segments dropped while they are empty or `.`.
pub open spec fn trim_back_segs(q: Seq<Seq<char>>) -> Seq<Seq<char>>
    decreases q.len(),
{
    if q.len() > 0 && !is_normal_seg(q.last()) {
        trim_back_segs(q.drop_last())
    } else {
        q
    }
}

/// Segments joined with `/` between them.
pub open spec fn join_segs(q: Seq<Seq<char>>) -> Seq<char>
    decreases q.len(),
{
    if q.len() == 0 {
        seq![]
    } else if q.len() == 1 {
        q[0]
    } else {
        join_segs(q.drop_last()) + "/"@ + q.last()
    }
}

/// Index of the segment holding the `k`-th component (counting from 1) among
/// the segments from `i` on, or the length when there are fewer.
pub open spec fn nth_normal_index(q: Seq<Seq<char>>, k: int, i: int) -> int
    decreases q.len() - i,
{
    if i < 0 || i >= q.len() {
        q.len() as int
    } else if is_normal_seg(q[i]) {
        if k <= 1 {
            i
        } else {
            nth_normal_index(q, k - 1, i + 1)
        }
    } else {
        nth_normal_index(q, k, i + 1)
    }
}

/// The text a path's component iterator still covers after its first `n`
/// components were taken (`n >= 1`), leading and trailing empty and `.`
/// segments trimmed, as `Components::as_path` gives it.
pub open spec fn rest_after(s: Seq<char>, n: int) -> Seq<char> {
    let body = segs(s).subrange(lead(s), segs(s).len() as int);
    let k = n - lead(s);
    let rest = if k <= 0 {
        body
    } else {
        let idx = nth_normal_index(body, k, 0);
        body.subrange(if idx < body.len() { idx + 1 } else { body.len() as int }, body.len() as int)
    };
    join_segs(trim_back_segs(trim_front_segs(rest)))
}

/// What `Path::strip_prefix` gives for path text: `None` unless the components
/// of `base` begin those of `p`; otherwise the remaining text. A `base` without
/// components leaves `p` as it is, save for trailing empty and `.` segments.
pub open spec fn strip_prefix_path(p: Seq<char>, base: Seq<char>) -> Option<Seq<char>> {
    let pc = components(p);
    let bc = components(base);
    if bc.len() > pc.len() || pc.subrange(0, bc.len() as int) != bc {
        None
    } else if bc.len() == 0 {
        Some(trim_path_end(p))
    } else {
        Some(rest_after(p, bc.len() as int))
    }
}

/// Path text without trailing empty and `.` segments, keeping a leading root or `.`.
pub open spec fn trim_path_end(p: Seq<char>) -> Seq<char> {
    let body = trim_back_segs(segs(p).subrange(lead(p), segs(p).len() as int));
    if has_root(p) {
        "/"@ + join_segs(body)
    } else if cur_start(p) {
        if body.len() == 0 { "."@ } else { "./"@ + join_segs(body) }
    } else {
        join_segs(body)
    }
}

/// A user-given path made relative to the reservoir root, as seen from `cwd`:
/// the path joined to `cwd`, with the root's components stripped; `.` when
/// nothing remains; the user's path unchanged when it lies outside the root.
pub open spec fn adjust_path_spec(cwd: Seq<char>, root: Seq<char>, user_path: Seq<char>) -> Seq<char> {
    match strip_prefix_path(join_path(cwd, user_path), root) {
        Some(rel) => if rel.len() == 0 { "."@ } else { rel },
        None => user_path,
    }
}

/// The views of a list of character vectors.
pub open spec fn vv(q: Seq<Vec<char>>) -> Seq<Seq<char>> {
    q.map_values(|l: Vec<char>| l@)
}

/// Whether a segment is a component of its own.
pub fn is_normal_seg_exec(x: &[char]) -> (r: bool)
    ensures
        r == is_normal_seg(x@),
{
    proof {
        reveal_strlit(".");
        if x@.len() == 1 && x@[0] == '.' {
            assert(x@ =~= "."@);
        }
        if x@.len() == 0 {
            assert(x@ =~= Seq::<char>::empty());
        }
        if x@ == "."@ {
            assert(x@.len() == 1 && x@[0] == '.');
        }
    }
    x.len() > 0 && !(x.len() == 1 && x[0] == '.')
}

/// The component segments of `q[a..]`.
fn normals_exec(q: &Vec<Vec<char>>, a: usize) -> (r: Vec<Vec<char>>)
    requires
        a <= q@.len(),
    ensures
        vv(r@) == normals(vv(q@).subrange(a as int, q@.len() as int)),
{
    let ghost qv = vv(q@);
    let mut r: Vec<Vec<char>> = Vec::new();
    let mut i = a;
    assert(vv(r@) =~= normals(qv.subrange(a as int, a as int)));
    while i < q.len()
        invariant
            qv == vv(q@),
            a <= i <= q@.len(),
            vv(r@) == normals(qv.subrange(a as int, i as int)),
        decreases q@.len() - i,
    {
        let ghost before = vv(r@);
        assert(qv.subrange(a as int, i + 1).drop_last() =~= qv.subrange(a as int, i as int));
        assert(qv.subrange(a as int, i + 1).last() == q@[i as int]@);
        if is_normal_seg_exec(q[i].as_slice()) {
            r.push(slice_chars(q[i].as_slice(), 0, q[i].len()));
            assert(q@[i as int]@.subrange(0, q@[i as int]@.len() as int) =~= q@[i as int]@);
            assert(vv(r@) =~= before.push(q@[i as int]@));
        }
        i += 1;
    }
    r
}

/// Whether the path starts at the root, whether it starts with a `.` segment, and its segments.
fn classify(s: &[char]) -> (r: (bool, bool, Vec<Vec<char>>))
    ensures
        r.0 == has_root(s@),
        r.1 == cur_start(s@),
        vv(r.2@) == segs(s@),
        segs(s@).len() >= 1,
{
    let sg = split_char_exec(s, '/');
    proof { lemma_split_nonempty(s@, '/'); }
    let root = s.len() > 0 && s[0] == '/';
    let dot = lit(".");
    let cur = !root && chars_eq(sg[0].as_slice(), dot.as_slice());
    (root, cur, sg)
}

proof fn lemma_split_nonempty(s: Seq<char>, c: char)
    ensures
        split_char(s, c).len() >= 1,
{
    let k = crate::text::find_from(s, c, 0);
    if !(k >= s.len() || k < 0) {
    }
}

/// The components of path text.
pub fn components_exec(s: &[char]) -> (r: Vec<Vec<char>>)
    ensures
        vv(r@) == components(s@),
{
    let (root, cur, sg) = classify(s);
    let start: usize = if root || cur { 1 } else { 0 };
    let body = normals_exec(&sg, start);
    let mut r: Vec<Vec<char>> = Vec::new();
    if root {
        r.push(lit("/"));
    } else if cur {
        r.push(lit("."));
    }
    let ghost head = vv(r@);
    let mut i: usize = 0;
    while i < body.len()
        invariant
            0 <= i <= body@.len(),
            vv(r@) == head + vv(body@).subrange(0, i as int),
        decreases body@.len() - i,
    {
        let ghost before = vv(r@);
        r.push(slice_chars(body[i].as_slice(), 0, body[i].len()));
        proof {
            assert(body@[i as int]@.subrange(0, body@[i as int]@.len() as int) =~= body@[i as int]@);
            assert(vv(r@) =~= before.push(vv(body@)[i as int]));
            assert(vv(body@).subrange(0, i + 1) =~= vv(body@).subrange(0, i as int).push(vv(body@)[i as int]));
        }
        i += 1;
    }
    proof {
        assert(vv(body@).subrange(0, i as int) =~= vv(body@));
        let hs: Seq<Seq<char>> = if has_root(s@) { seq!["/"@] } else if cur_start(s@) { seq!["."@] } else { seq![] };
        assert(head =~= hs);
    }
    r
}

proof fn lemma_trim_front_from(q: Seq<Seq<char>>, i: int)
    requires
        0 <= i < q.len(),
        !is_normal_seg(q[i]),
    ensures
        trim_front_segs(q.subrange(i, q.len() as int)) == trim_front_segs(q.subrange(i + 1, q.len() as int)),
{
    assert(q.subrange(i, q.len() as int)[0] == q[i]);
    assert(q.subrange(i, q.len() as int).drop_first() =~= q.subrange(i + 1, q.len() as int));
}

proof fn lemma_trim_back_to(q: Seq<Seq<char>>, lo: int, j: int)
    requires
        0 <= lo < j <= q.len(),
        !is_normal_seg(q[j - 1]),
    ensures
        trim_back_segs(q.subrange(lo, j)) == trim_back_segs(q.subrange(lo, j - 1)),
{
    assert(q.subrange(lo, j).last() == q[j - 1]);
    assert(q.subrange(lo, j).drop_last() =~= q.subrange(lo, j - 1));
}

/// First index at or after `a` (below `b`) of a component segment of `q`.
fn trim_front_index(q: &Vec<Vec<char>>, a: usize, b: usize) -> (i: usize)
    requires
        a <= b <= q@.len(),
    ensures
        a <= i <= b,
        trim_front_segs(vv(q@).subrange(a as int, b as int)) == vv(q@).subrange(i as int, b as int),
{
    let ghost qv = vv(q@).subrange(0, b as int);
    let mut i = a;
    proof {
        assert(vv(q@).subrange(a as int, b as int) =~= qv.subrange(a as int, qv.len() as int));
    }
    while i < b && !is_normal_seg_exec(q[i].as_slice())
        invariant
            qv == vv(q@).subrange(0, b as int),
            a <= i <= b <= q@.len(),
            trim_front_segs(qv.subrange(a as int, qv.len() as int)) == trim_front_segs(
                qv.subrange(i as int, qv.len() as int),
            ),
        decreases b - i,
    {
        proof {
            assert(qv[i as int] == q@[i as int]@);
            lemma_trim_front_from(qv, i as int);
        }
        i += 1;
    }
    proof {
        if i < b {
            assert(qv[i as int] == q@[i as int]@);
            assert(qv.subrange(i as int, qv.len() as int)[0] == qv[i as int]);
        }
        assert(trim_front_segs(qv.subrange(i as int, qv.len() as int)) == qv.subrange(i as int, b as int));
        assert(vv(q@).subrange(i as int, b as int) =~= qv.subrange(i as int, b as int));
    }
    i
}

/// End index (down to `a`) after trailing non-component segments of `q[a..b]` are dropped.
fn trim_back_index(q: &Vec<Vec<char>>, a: usize, b: usize) -> (j: usize)
    requires
        a <= b <= q@.len(),
    ensures
        a <= j <= b,
        trim_back_segs(vv(q@).subrange(a as int, b as int)) == vv(q@).subrange(a as int, j as int),
{
    let ghost qv = vv(q@);
    let mut j = b;
    while j > a && !is_normal_seg_exec(q[j - 1].as_slice())
        invariant
            qv == vv(q@),
            a <= j <= b <= q@.len(),
            trim_back_segs(qv.subrange(a as int, b as int)) == trim_back_segs(qv.subrange(a as int, j as int)),
        decreases j - a,
    {
        proof {
            assert(qv[j - 1] == q@[j - 1]@);
            lemma_trim_back_to(qv, a as int, j as int);
        }
        j -= 1;
    }
    proof {
        if j > a {
            assert(qv[j - 1] == q@[j - 1]@);
            assert(qv.subrange(a as int, j as int).last() == qv[j - 1]);
        }
        assert(trim_back_segs(qv.subrange(a as int, j as int)) == qv.subrange(a as int, j as int));
    }
    j
}

/// The segments `q[i..j]` joined with `/`.
fn join_range(q: &Vec<Vec<char>>, i: usize, j: usize) -> (r: Vec<char>)
    requires
        i <= j <= q@.len(),
    ensures
        r@ == join_segs(vv(q@).subrange(i as int, j as int)),
{
    let ghost qv = vv(q@);
    let mut r: Vec<char> = Vec::new();
    let mut k = i;
    assert(qv.subrange(i as int, i as int) =~= Seq::<Seq<char>>::empty());
    while k < j
        invariant
            qv == vv(q@),
            i <= k <= j <= q@.len(),
            r@ == join_segs(qv.subrange(i as int, k as int)),
        decreases j - k,
    {
        let ghost sub = qv.subrange(i as int, k + 1);
        assert(sub.drop_last() =~= qv.subrange(i as int, k as int));
        assert(sub.last() == q@[k as int]@);
        let ghost before = r@;
        if k > i {
            r.push('/');
        }
        push_all(&mut r, q[k].as_slice());
        proof {
            reveal_strlit("/");
            if k == i {
                assert(sub.len() == 1);
                assert(r@ =~= sub[0]);
            } else {
                assert(r@ =~= before + "/"@ + sub.last());
            }
        }
        k += 1;
    }
    r
}

/// Index, within `q[a..]`, of the segment holding the `k`-th component, or the length.
fn nth_normal_index_exec(q: &Vec<Vec<char>>, a: usize, k: usize) -> (r: usize)
    requires
        a <= q@.len(),
        k >= 1,
    ensures
        r == nth_normal_index(vv(q@).subrange(a as int, q@.len() as int), k as int, 0),
{
    let ghost body = vv(q@).subrange(a as int, q@.len() as int);
    let mut i: usize = 0;
    let mut left = k;
    while i < q.len() - a
        invariant
            body == vv(q@).subrange(a as int, q@.len() as int),
            a + i <= q@.len(),
            left >= 1,
            nth_normal_index(body, k as int, 0) == nth_normal_index(body, left as int, i as int),
        decreases q@.len() - (a + i),
    {
        assert(body[i as int] == q@[a + i]@);
        if is_normal_seg_exec(q[a + i].as_slice()) {
            if left <= 1 {
                return i;
            }
            left -= 1;
        }
        i += 1;
    }
    i
}

/// Text left after the first `n` components of path text (with segments `sg`) were taken.
fn rest_after_exec(s: &[char], sg: &Vec<Vec<char>>, root: bool, cur: bool, n: usize) -> (r: Vec<char>)
    requires
        vv(sg@) == segs(s@),
        root == has_root(s@),
        cur == cur_start(s@),
        sg@.len() >= 1,
    ensures
        r@ == rest_after(s@, n as int),
{
    let lead_n: usize = if root || cur { 1 } else { 0 };
    let ghost body = vv(sg@).subrange(lead_n as int, sg@.len() as int);
    let start: usize = if n <= lead_n {
        lead_n
    } else {
        let idx = nth_normal_index_exec(sg, lead_n, n - lead_n);
        if idx < sg.len() - lead_n { lead_n + idx + 1 } else { sg.len() }
    };
    proof {
        let k = n - lead_n;
        let rest = if k <= 0 {
            body
        } else {
            let idx = nth_normal_index(body, k, 0);
            body.subrange(if idx < body.len() { idx + 1 } else { body.len() as int }, body.len() as int)
        };
        assert(rest =~= vv(sg@).subrange(start as int, sg@.len() as int));
    }
    let i = trim_front_index(sg, start, sg.len());
    let j = trim_back_index(sg, i, sg.len());
    join_range(sg, i, j)
}

/// Path text without trailing empty and `.` segments.
fn trim_path_end_exec(s: &[char]) -> (r: Vec<char>)
    ensures
        r@ == trim_path_end(s@),
{
    let (root, cur, sg) = classify(s);
    let lead_n: usize = if root || cur { 1 } else { 0 };
    let j = trim_back_index(&sg, lead_n, sg.len());
    let body = join_range(&sg, lead_n, j);
    proof {
        reveal_strlit("/");
        reveal_strlit(".");
        reveal_strlit("./");
    }
    if root {
        let mut r = lit("/");
        push_all(&mut r, body.as_slice());
        r
    } else if cur {
        if j == lead_n {
            assert(vv(sg@).subrange(lead_n as int, j as int).len() == 0);
            lit(".")
        } else {
            let mut r = lit("./");
            push_all(&mut r, body.as_slice());
            r
        }
    } else {
        body
    }
}

/// What `Path::strip_prefix` gives for path text.
pub fn strip_prefix_exec(p: &[char], base: &[char]) -> (r: Option<Vec<char>>)
    ensures
        match r {
            Some(v) => strip_prefix_path(p@, base@) == Some(v@),
            None => strip_prefix_path(p@, base@) is None,
        },
{
    let pc = components_exec(p);
    let bc = components_exec(base);
    let ghost pcv = vv(pc@);
    let ghost bcv = vv(bc@);
    if bc.len() > pc.len() {
        return None;
    }
    let mut i: usize = 0;
    while i < bc.len()
        invariant
            pcv == vv(pc@),
            bcv == vv(bc@),
            pcv == components(p@),
            bcv == components(base@),
            bc@.len() <= pc@.len(),
            0 <= i <= bc@.len(),
            forall|j: int| 0 <= j < i ==> pcv[j] == bcv[j],
        decreases bc@.len() - i,
    {
        proof {
            assert(pcv[i as int] == pc@[i as int]@ && bcv[i as int] == bc@[i as int]@);
        }
        if !chars_eq(pc[i].as_slice(), bc[i].as_slice()) {
            assert(pcv[i as int] == pc@[i as int]@ && bcv[i as int] == bc@[i as int]@);
            assert(pcv.subrange(0, bcv.len() as int)[i as int] != bcv[i as int]);
            assert(pcv.subrange(0, bcv.len() as int) != bcv);
            return None;
        }
        i += 1;
    }
    assert(pcv.subrange(0, bcv.len() as int) =~= bcv);
    if bc.len() == 0 {
        return Some(trim_path_end_exec(p));
    }
    let (root, cur, sg) = classify(p);
    Some(rest_after_exec(p, &sg, root, cur, bc.len()))
}

/// A user-given path made relative to the reservoir root, as seen from `cwd`.
pub fn adjust_path(cwd: &str, root: &str, user_path: &str) -> (r: String)
    ensures
        r@ == adjust_path_spec(cwd@, root@, user_path@),
{
    let c = chars_of(cwd);
    let u = chars_of(user_path);
    let rt = chars_of(root);
    let abs = join_path_exec(c.as_slice(), u.as_slice());
    match strip_prefix_exec(abs.as_slice(), rt.as_slice()) {
        Some(rel) => {
            if rel.len() == 0 {
                string_of(lit(".").as_slice())
            } else {
                string_of(rel.as_slice())
            }
        },
        None => string_of(u.as_slice()),
    }
}

/// The directories above a path whose rule files apply to it, as components:
/// every component of its parent (`Path::parent`) except a leading `.`.
pub open spec fn ancestor_dirs(target: Seq<char>) -> Seq<Seq<char>> {
    let c = components(target);
    if c.len() == 0 || c.last() == "/"@ {
        seq![]
    } else {
        let parent = c.drop_last();
        if parent.len() > 0 && parent[0] == "."@ {
            parent.drop_first()
        } else {
            parent
        }
    }
}

/// The directory path built from the first `k` of `dirs`, pushing one after another.
pub open spec fn accum_dir(dirs: Seq<Seq<char>>, k: int) -> Seq<char>
    decreases k,
{
    if k <= 0 {
        seq![]
    } else {
        join_path(accum_dir(dirs, k - 1), dirs[k - 1])
    }
}

/// The prefix rules of a directory are relative to: its path with `\` written
/// as `/`, ending in `/` unless empty.
pub open spec fn dir_prefix(dir: Seq<char>) -> Seq<char> {
    let d = replace_char(dir, '\\', '/');
    if d.len() > 0 && !ends_with(d, "/"@) {
        d + "/"@
    } else {
        d
    }
}

/// A rule file to read: its path, the directory prefix its rules are relative
/// to, and whether it holds purities (else impurities).
#[derive(Clone, Debug)]
pub struct RuleFileRequest {
    pub file: String,
    pub base_dir: String,
    pub purities: bool,
}

/// The mathematical value of a request.
pub open spec fn request_view(r: RuleFileRequest) -> (Seq<char>, Seq<char>, bool) {
    (r.file@, r.base_dir@, r.purities)
}

/// The rule files of one directory, in the order they are read.
pub open spec fn dir_requests(dir: Seq<char>, prefix: Seq<char>, dp: bool, di: bool) -> Seq<(Seq<char>, Seq<char>, bool)> {
    let p: Seq<(Seq<char>, Seq<char>, bool)> = if dp {
        seq![(join_path(dir, ".purities"@), prefix, true)]
    } else {
        seq![]
    };
    let i: Seq<(Seq<char>, Seq<char>, bool)> = if di {
        seq![(join_path(dir, ".impurities"@), prefix, false)]
    } else {
        seq![]
    };
    p + i
}

/// The rule files of the first `k` ancestor directories.
pub open spec fn ancestors_requests(dirs: Seq<Seq<char>>, k: int, dp: bool, di: bool) -> Seq<(Seq<char>, Seq<char>, bool)>
    decreases k,
{
    if k <= 0 {
        seq![]
    } else {
        ancestors_requests(dirs, k - 1, dp, di) + dir_requests(
            accum_dir(dirs, k),
            dir_prefix(accum_dir(dirs, k)),
            dp,
            di,
        )
    }
}

/// Whether a target names the reservoir root itself.
pub open spec fn is_root_target(target: Seq<char>) -> bool {
    target == "."@ || target == "./"@ || target.len() == 0
}

/// The rule files that apply to a target before it is scanned: none for the
/// root itself (scanning reads those); otherwise the root's own rule files,
/// then those of each directory above the target, outermost first. Only the
/// kinds still read dynamically are listed.
pub open spec fn ancestor_rule_files(target: Seq<char>, dp: bool, di: bool) -> Seq<(Seq<char>, Seq<char>, bool)> {
    if is_root_target(target) {
        seq![]
    } else {
        dir_requests(seq![], seq![], dp, di) + ancestors_requests(ancestor_dirs(target), ancestor_dirs(target).len() as int, dp, di)
    }
}

fn push_dir_requests(out: &mut Vec<RuleFileRequest>, dir: &[char], prefix: &[char], dp: bool, di: bool)
    ensures
        final(out)@.map_values(|r: RuleFileRequest| request_view(r)) == old(out)@.map_values(
            |r: RuleFileRequest| request_view(r),
        ) + dir_requests(dir@, prefix@, dp, di),
{
    let ghost start = out@.map_values(|r: RuleFileRequest| request_view(r));
    let ghost x1 = (join_path(dir@, ".purities"@), prefix@, true);
    let ghost x2 = (join_path(dir@, ".impurities"@), prefix@, false);
    if dp {
        let f = join_path_exec(dir, lit(".purities").as_slice());
        out.push(RuleFileRequest { file: string_of(f.as_slice()), base_dir: string_of(prefix), purities: true });
    }
    let ghost mid = out@.map_values(|r: RuleFileRequest| request_view(r));
    assert(mid =~= start + (if dp { seq![x1] } else { Seq::<(Seq<char>, Seq<char>, bool)>::empty() }));
    if di {
        let f = join_path_exec(dir, lit(".impurities").as_slice());
        out.push(RuleFileRequest { file: string_of(f.as_slice()), base_dir: string_of(prefix), purities: false });
    }
    assert(out@.map_values(|r: RuleFileRequest| request_view(r)) =~= mid + (if di { seq![x2] } else { Seq::<(Seq<char>, Seq<char>, bool)>::empty() }));
}

fn dir_prefix_exec(dir: &[char]) -> (r: Vec<char>)
    ensures
        r@ == dir_prefix(dir@),
{
    let mut d = replace_char_exec(dir, '\\', '/');
    let slash = lit("/");
    if d.len() > 0 && !ends_with_exec(d.as_slice(), slash.as_slice()) {
        d.push('/');
        assert(d@ =~= replace_char(dir@, '\\', '/') + "/"@) by {
            reveal_strlit("/");
        }
    }
    d
}

/// The rule files to read for a target before it is scanned.
pub fn load_ancestor_rules(target_path: &str, rules: &crate::rules::RuleSet) -> (r: Vec<RuleFileRequest>)
    ensures
        r@.map_values(|x: RuleFileRequest| request_view(x)) == ancestor_rule_files(
            target_path@,
            rules.dynamic_purities,
            rules.dynamic_impurities,
        ),
{
    let dp = rules.dynamic_purities;
    let di = rules.dynamic_impurities;
    let t = chars_of(target_path);
    let mut out: Vec<RuleFileRequest> = Vec::new();
    proof {
        reveal_strlit(".");
        reveal_strlit("./");
    }
    let is_root = chars_eq(t.as_slice(), lit(".").as_slice()) || chars_eq(t.as_slice(), lit("./").as_slice())
        || t.len() == 0;
    if t.len() == 0 {
        assert(t@ =~= Seq::<char>::empty());
    }
    if is_root {
        assert(out@.map_values(|x: RuleFileRequest| request_view(x)) =~= Seq::<(Seq<char>, Seq<char>, bool)>::empty());
        return out;
    }
    let empty: Vec<char> = Vec::new();
    if dp {
        out.push(RuleFileRequest { file: string_of(lit(".purities").as_slice()), base_dir: string_of(empty.as_slice()), purities: true });
    }
    if di {
        out.push(RuleFileRequest { file: string_of(lit(".impurities").as_slice()), base_dir: string_of(empty.as_slice()), purities: false });
    }
    let ghost head = dir_requests(seq![], seq![], dp, di);
    assert(join_path(seq![], ".purities"@) =~= ".purities"@);
    assert(join_path(seq![], ".impurities"@) =~= ".impurities"@);
    assert(out@.map_values(|x: RuleFileRequest| request_view(x)) =~= head);
    let comps = components_exec(t.as_slice());
    let ghost cv = vv(comps@);
    let ghost dirs = ancestor_dirs(t@);
    let n = comps.len();
    let mut lo: usize = 0;
    let mut hi: usize = 0;
    if n > 0 && !chars_eq(comps[n - 1].as_slice(), lit("/").as_slice()) {
        hi = n - 1;
        if hi > 0 && chars_eq(comps[0].as_slice(), lit(".").as_slice()) {
            lo = 1;
        }
    }
    proof {
        reveal_strlit("/");
        assert(cv == components(t@));
        if n > 0 {
            assert(cv.last() == comps@[n - 1]@);
            assert(cv[0] == comps@[0]@);
        }
        assert(dirs =~= cv.subrange(lo as int, hi as int));
    }
    let mut acc: Vec<char> = Vec::new();
    let mut k = lo;
    while k < hi
        invariant
            cv == vv(comps@),
            dirs == cv.subrange(lo as int, hi as int),
            lo <= k <= hi <= comps@.len(),
            acc@ == accum_dir(dirs, k - lo),
            out@.map_values(|x: RuleFileRequest| request_view(x)) == head + ancestors_requests(dirs, k - lo, dp, di),
        decreases hi - k,
    {
        acc = join_path_exec(acc.as_slice(), comps[k].as_slice());
        assert(dirs[k - lo] == comps@[k as int]@);
        let prefix = dir_prefix_exec(acc.as_slice());
        push_dir_requests(&mut out, acc.as_slice(), prefix.as_slice(), dp, di);
        k += 1;
    }
    out
}


/// A rule file to read with what reading it gave: its text, or `None` when it
/// could not be read.
pub open spec fn read_files(
    reqs: Seq<(Seq<char>, Seq<char>, bool)>,
    contents: Seq<Option<Seq<char>>>,
) -> Seq<((Seq<char>, Seq<char>, bool), Option<Seq<char>>)> {
    Seq::new(reqs.len(), |i: int| (reqs[i], contents[i]))
}

/// The rules read rule files add to the purities (or, with `purities` false,
/// to the impurities): each readable file of that kind, in order, gives the
/// rules of its text relative to its base directory.
pub open spec fn loaded_rules(
    files: Seq<((Seq<char>, Seq<char>, bool), Option<Seq<char>>)>,
    purities: bool,
) -> Seq<(Seq<char>, Seq<char>)>
    decreases files.len(),
{
    if files.len() == 0 {
        seq![]
    } else {
        let f = files.last();
        loaded_rules(files.drop_last(), purities) + if f.0.2 == purities && f.1 is Some {
            parse_rules(lines(f.1->0), f.0.1)
        } else {
            seq![]
        }
    }
}

proof fn lemma_parse_rules_base(ls: Seq<Seq<char>>, base: Seq<char>)
    ensures
        forall|i: int| 0 <= i < parse_rules(ls, base).len() ==> (#[trigger] parse_rules(ls, base)[i]).1 == base,
    decreases ls.len(),
{
    if ls.len() > 0 {
        lemma_parse_rules_base(ls.drop_last(), base);
        let prev = parse_rules(ls.drop_last(), base);
        let cur = parse_rules(ls, base);
        assert forall|i: int| 0 <= i < cur.len() implies (#[trigger] cur[i]).1 == base by {
            if i < prev.len() {
                assert(cur[i] == prev[i]);
            } else {
                assert(cur[i] == (replace_char(crate::text::trim(ls.last()), '\\', '/'), base));
            }
        }
    }
}

proof fn lemma_loaded_concat(
    a: Seq<((Seq<char>, Seq<char>, bool), Option<Seq<char>>)>,
    b: Seq<((Seq<char>, Seq<char>, bool), Option<Seq<char>>)>,
    p: bool,
)
    ensures
        loaded_rules(a + b, p) == loaded_rules(a, p) + loaded_rules(b, p),
    decreases b.len(),
{
    if b.len() == 0 {
        assert(a + b =~= a);
    } else {
        assert((a + b).drop_last() =~= a + b.drop_last());
        assert((a + b).last() == b.last());
        lemma_loaded_concat(a, b.drop_last(), p);
    }
}

proof fn lemma_read_files_split(
    r1: Seq<(Seq<char>, Seq<char>, bool)>,
    r2: Seq<(Seq<char>, Seq<char>, bool)>,
    c: Seq<Option<Seq<char>>>,
)
    requires
        c.len() == r1.len() + r2.len(),
    ensures
        read_files(r1 + r2, c) == read_files(r1, c.take(r1.len() as int)) + read_files(r2, c.skip(r1.len() as int)),
{
    assert(read_files(r1 + r2, c) =~= read_files(r1, c.take(r1.len() as int)) + read_files(r2, c.skip(r1.len() as int)));
}

proof fn lemma_loaded_base(files: Seq<((Seq<char>, Seq<char>, bool), Option<Seq<char>>)>, base: Seq<char>, p: bool)
    requires
        forall|i: int| 0 <= i < files.len() ==> (#[trigger] files[i]).0.1 == base,
    ensures
        forall|j: int| 0 <= j < loaded_rules(files, p).len() ==> (#[trigger] loaded_rules(files, p)[j]).1 == base,
    decreases files.len(),
{
    if files.len() > 0 {
        let rest = files.drop_last();
        let f = files.last();
        assert forall|i: int| 0 <= i < rest.len() implies (#[trigger] rest[i]).0.1 == base by {
            assert(rest[i] == files[i]);
        }
        lemma_loaded_base(rest, base, p);
        assert(files[files.len() - 1] == f);
        if f.0.2 == p && f.1 is Some {
            lemma_parse_rules_base(lines(f.1->0), f.0.1);
            let a = loaded_rules(rest, p);
            let b = parse_rules(lines(f.1->0), f.0.1);
            assert forall|j: int| 0 <= j < (a + b).len() implies (#[trigger] (a + b)[j]).1 == base by {
                if j >= a.len() {
                    assert((a + b)[j] == b[j - a.len()]);
                }
            }
        } else {
            assert(loaded_rules(files, p) =~= loaded_rules(rest, p));
        }
    }
}

proof fn lemma_loaded_none_of_kind(files: Seq<((Seq<char>, Seq<char>, bool), Option<Seq<char>>)>, p: bool)
    requires
        forall|i: int| 0 <= i < files.len() ==> (#[trigger] files[i]).0.2 != p,
    ensures
        loaded_rules(files, p) == Seq::<(Seq<char>, Seq<char>)>::empty(),
    decreases files.len(),
{
    if files.len() > 0 {
        let rest = files.drop_last();
        assert forall|i: int| 0 <= i < rest.len() implies (#[trigger] rest[i]).0.2 != p by {
            assert(rest[i] == files[i]);
        }
        lemma_loaded_none_of_kind(rest, p);
        assert(files[files.len() - 1] == files.last());
        assert(loaded_rules(files, p) =~= loaded_rules(rest, p));
    }
}

proof fn lemma_requests_kinds(dirs: Seq<Seq<char>>, k: int, dp: bool, di: bool)
    ensures
        forall|i: int| 0 <= i < ancestors_requests(dirs, k, dp, di).len() ==> {
            let r = #[trigger] ancestors_requests(dirs, k, dp, di)[i];
            (r.2 ==> dp) && (!r.2 ==> di)
        },
    decreases k,
{
    if k > 0 {
        lemma_requests_kinds(dirs, k - 1, dp, di);
        let a = ancestors_requests(dirs, k - 1, dp, di);
        let d = dir_requests(accum_dir(dirs, k), dir_prefix(accum_dir(dirs, k)), dp, di);
        assert forall|i: int| 0 <= i < (a + d).len() implies {
            let r = #[trigger] (a + d)[i];
            (r.2 ==> dp) && (!r.2 ==> di)
        } by {
            if i >= a.len() {
                assert((a + d)[i] == d[i - a.len()]);
            }
        }
    }
}

/// Whether `lv` gives each loaded rule the ancestor directory it came from:
/// levels run from 1 (the outermost directory) to `k`, never decrease along
/// the rules, and a rule at level `m` is relative to that directory's prefix.
pub open spec fn levels_fit(
    rules: Seq<(Seq<char>, Seq<char>)>,
    dirs: Seq<Seq<char>>,
    lv: Seq<int>,
    k: int,
) -> bool {
    &&& lv.len() == rules.len()
    &&& forall|i: int, j: int| 0 <= i <= j < lv.len() ==> #[trigger] lv[i] <= #[trigger] lv[j]
    &&& forall|i: int| 0 <= i < lv.len() ==> 1 <= #[trigger] lv[i] <= k
    &&& forall|i: int| 0 <= i < lv.len() ==> (#[trigger] rules[i]).1 == dir_prefix(accum_dir(dirs, lv[i]))
}

proof fn lemma_ancestor_levels(
    dirs: Seq<Seq<char>>,
    k: int,
    dp: bool,
    di: bool,
    c: Seq<Option<Seq<char>>>,
    p: bool,
) -> (lv: Seq<int>)
    requires
        0 <= k,
        c.len() == ancestors_requests(dirs, k, dp, di).len(),
    ensures
        levels_fit(loaded_rules(read_files(ancestors_requests(dirs, k, dp, di), c), p), dirs, lv, k),
    decreases k,
{
    if k == 0 {
        let files = read_files(ancestors_requests(dirs, k, dp, di), c);
        assert(files.len() == 0);
        seq![]
    } else {
        let a = ancestors_requests(dirs, k - 1, dp, di);
        let pre = dir_prefix(accum_dir(dirs, k));
        let d = dir_requests(accum_dir(dirs, k), pre, dp, di);
        lemma_read_files_split(a, d, c);
        let fa = read_files(a, c.take(a.len() as int));
        let fd = read_files(d, c.skip(a.len() as int));
        lemma_loaded_concat(fa, fd, p);
        let lva = lemma_ancestor_levels(dirs, k - 1, dp, di, c.take(a.len() as int), p);
        assert forall|i: int| 0 <= i < fd.len() implies (#[trigger] fd[i]).0.1 == pre by {
            assert(d[i].1 == pre);
        }
        lemma_loaded_base(fd, pre, p);
        let la = loaded_rules(fa, p);
        let ld = loaded_rules(fd, p);
        let lv = lva + Seq::new(ld.len(), |i: int| k);
        let all = la + ld;
        assert forall|i: int| 0 <= i < lv.len() implies (#[trigger] all[i]).1 == dir_prefix(accum_dir(dirs, lv[i])) by {
            if i >= la.len() {
                assert(all[i] == ld[i - la.len()]);
                assert(lv[i] == k);
            } else {
                assert(all[i] == la[i]);
                assert(lv[i] == lva[i]);
            }
        }
        assert forall|i: int, j: int| 0 <= i <= j < lv.len() implies #[trigger] lv[i] <= #[trigger] lv[j] by {
            if j >= lva.len() {
                assert(lv[j] == k);
                if i < lva.len() {
                    assert(lv[i] == lva[i]);
                }
            } else {
                assert(lv[i] == lva[i] && lv[j] == lva[j]);
            }
        }
        assert forall|i: int| 0 <= i < lv.len() implies 1 <= #[trigger] lv[i] <= k by {
            if i < lva.len() {
                assert(lv[i] == lva[i]);
            }
        }
        lv
    }
}

/// The texts read for rule files, `None` for one that could not be read.
pub open spec fn texts_view(contents: Seq<Option<String>>) -> Seq<Option<Seq<char>>> {
    contents.map_values(|o: Option<String>| match o {
        Some(t) => Some(t@),
        None => None,
    })
}

/// Adds the rules of read rule files to a rule set: each readable file, in
/// order, gives its rules to the purities or the impurities as its request
/// says. Nothing else about the set changes.
pub fn apply_rule_files(
    reqs: &Vec<RuleFileRequest>,
    contents: &Vec<Option<String>>,
    rules: &mut crate::rules::RuleSet,
)
    requires
        reqs@.len() == contents@.len(),
    ensures
        rules_view(final(rules).purities@) == rules_view(old(rules).purities@) + loaded_rules(
            read_files(reqs@.map_values(|x: RuleFileRequest| request_view(x)), texts_view(contents@)),
            true,
        ),
        rules_view(final(rules).impurities@) == rules_view(old(rules).impurities@) + loaded_rules(
            read_files(reqs@.map_values(|x: RuleFileRequest| request_view(x)), texts_view(contents@)),
            false,
        ),
        final(rules).dynamic_purities == old(rules).dynamic_purities,
        final(rules).dynamic_impurities == old(rules).dynamic_impurities,
{
    let ghost rv = reqs@.map_values(|x: RuleFileRequest| request_view(x));
    let ghost cv = texts_view(contents@);
    let ghost files = read_files(rv, cv);
    let ghost p0 = rules_view(rules.purities@);
    let ghost i0 = rules_view(rules.impurities@);
    let mut i: usize = 0;
    proof {
        assert(files.take(0) =~= Seq::<((Seq<char>, Seq<char>, bool), Option<Seq<char>>)>::empty());
        assert(p0 + loaded_rules(files.take(0), true) =~= p0);
        assert(i0 + loaded_rules(files.take(0), false) =~= i0);
    }
    while i < reqs.len()
        invariant
            rv == reqs@.map_values(|x: RuleFileRequest| request_view(x)),
            cv == texts_view(contents@),
            files == read_files(rv, cv),
            reqs@.len() == contents@.len(),
            0 <= i <= reqs@.len(),
            rules_view(rules.purities@) == p0 + loaded_rules(files.take(i as int), true),
            rules_view(rules.impurities@) == i0 + loaded_rules(files.take(i as int), false),
            rules.dynamic_purities == old(rules).dynamic_purities,
            rules.dynamic_impurities == old(rules).dynamic_impurities,
        decreases reqs@.len() - i,
    {
        let ghost f = files[i as int];
        proof {
            assert(files.take(i + 1).drop_last() =~= files.take(i as int));
            assert(files.take(i + 1).last() == f);
            assert(f == (rv[i as int], cv[i as int]));
        }
        match &contents[i] {
            Some(text) => {
                if reqs[i].purities {
                    crate::rules::load_rules(text.as_str(), reqs[i].base_dir.as_str(), &mut rules.purities);
                    proof {
                        assert(loaded_rules(files.take(i + 1), false) =~= loaded_rules(files.take(i as int), false));
                        assert(p0 + loaded_rules(files.take(i + 1), true) =~= p0 + loaded_rules(files.take(i as int), true)
                            + parse_rules(lines(text@), reqs[i as int].base_dir@));
                    }
                } else {
                    crate::rules::load_rules(text.as_str(), reqs[i].base_dir.as_str(), &mut rules.impurities);
                    proof {
                        assert(loaded_rules(files.take(i + 1), true) =~= loaded_rules(files.take(i as int), true));
                        assert(i0 + loaded_rules(files.take(i + 1), false) =~= i0 + loaded_rules(files.take(i as int), false)
                            + parse_rules(lines(text@), reqs[i as int].base_dir@));
                    }
                }
            },
            None => {
                proof {
                    assert(loaded_rules(files.take(i + 1), false) =~= loaded_rules(files.take(i as int), false));
                    assert(loaded_rules(files.take(i + 1), true) =~= loaded_rules(files.take(i as int), true));
                }
            },
        }
        i += 1;
    }
    proof {
        assert(files.take(i as int) =~= files);
    }
}

/// What reading the rule files `load_ancestor_rules` lists adds, whatever
/// each file turns out to hold (`contents`, aligned with the list): nothing
/// for the root itself; no purities unless purities are still read
/// dynamically, and likewise for impurities; otherwise the root's rules come
/// first, relative to the root (base directory empty), followed by those of
/// each directory above the target, outermost first, each relative to that
/// directory's prefix.
pub proof fn law_ancestor_rules_load_root_first(
    target: Seq<char>,
    dp: bool,
    di: bool,
    contents: Seq<Option<Seq<char>>>,
    p: bool,
) -> (lv: Seq<int>)
    requires
        contents.len() == ancestor_rule_files(target, dp, di).len(),
    ensures
        is_root_target(target) ==> loaded_rules(read_files(ancestor_rule_files(target, dp, di), contents), p)
            == Seq::<(Seq<char>, Seq<char>)>::empty(),
        p && !dp ==> loaded_rules(read_files(ancestor_rule_files(target, dp, di), contents), p)
            == Seq::<(Seq<char>, Seq<char>)>::empty(),
        !p && !di ==> loaded_rules(read_files(ancestor_rule_files(target, dp, di), contents), p)
            == Seq::<(Seq<char>, Seq<char>)>::empty(),
        !is_root_target(target) ==> {
            let root = dir_requests(seq![], seq![], dp, di);
            let n0 = root.len() as int;
            let dirs = ancestor_dirs(target);
            let from_root = loaded_rules(read_files(root, contents.take(n0)), p);
            let from_dirs = loaded_rules(
                read_files(ancestors_requests(dirs, dirs.len() as int, dp, di), contents.skip(n0)),
                p,
            );
            &&& loaded_rules(read_files(ancestor_rule_files(target, dp, di), contents), p) == from_root + from_dirs
            &&& forall|i: int| 0 <= i < from_root.len() ==> (#[trigger] from_root[i]).1 == Seq::<char>::empty()
            &&& levels_fit(from_dirs, dirs, lv, dirs.len() as int)
        },
{
    let reqs = ancestor_rule_files(target, dp, di);
    let files = read_files(reqs, contents);
    if is_root_target(target) {
        assert(files.len() == 0);
        return seq![];
    }
    let root = dir_requests(seq![], seq![], dp, di);
    let n0 = root.len() as int;
    let dirs = ancestor_dirs(target);
    let anc = ancestors_requests(dirs, dirs.len() as int, dp, di);
    lemma_read_files_split(root, anc, contents);
    let fr = read_files(root, contents.take(n0));
    let fd = read_files(anc, contents.skip(n0));
    lemma_loaded_concat(fr, fd, p);
    assert forall|i: int| 0 <= i < fr.len() implies (#[trigger] fr[i]).0.1 == Seq::<char>::empty() by {
        assert(root[i].1 == Seq::<char>::empty());
    }
    lemma_loaded_base(fr, Seq::<char>::empty(), p);
    lemma_requests_kinds(dirs, dirs.len() as int, dp, di);
    if (p && !dp) || (!p && !di) {
        assert forall|i: int| 0 <= i < files.len() implies (#[trigger] files[i]).0.2 != p by {
            if i >= n0 {
                assert(reqs[i] == anc[i - n0]);
            } else {
                assert(reqs[i] == root[i]);
            }
        }
        lemma_loaded_none_of_kind(files, p);
    }
    lemma_ancestor_levels(dirs, dirs.len() as int, dp, di, contents.skip(n0), p)
}


/// Whether no segment holds a `/`.
pub open spec fn slash_free(q: Seq<Seq<char>>) -> bool {
    forall|i: int, j: int| 0 <= i < q.len() && 0 <= j < q[i].len() ==> #[trigger] q[i][j] != '/'
}

proof fn lemma_find_first(s: Seq<char>, c: char, f: int)
    requires
        0 <= f <= s.len(),
        forall|k: int| 0 <= k < f ==> #[trigger] s[k] != c,
        f < s.len() ==> s[f] == c,
    ensures
        crate::text::find_from(s, c, 0) == f,
{
    crate::text::lemma_find_from(s, c, 0);
    let g = crate::text::find_from(s, c, 0);
    if g < f {
        assert(s[g] != c);
    } else if g > f {
        assert(s[f] != c);
    }
}

proof fn lemma_split_plain(s: Seq<char>, c: char)
    requires
        forall|k: int| 0 <= k < s.len() ==> #[trigger] s[k] != c,
    ensures
        split_char(s, c) == seq![s],
{
    lemma_find_first(s, c, s.len() as int);
}

proof fn lemma_split_concat(x: Seq<char>, y: Seq<char>, c: char)
    ensures
        split_char(x + seq![c] + y, c) == split_char(x, c) + split_char(y, c),
    decreases x.len(),
{
    let s = x + seq![c] + y;
    crate::text::lemma_find_from(x, c, 0);
    let k = crate::text::find_from(x, c, 0);
    if k >= x.len() {
        assert forall|i: int| 0 <= i < x.len() implies #[trigger] s[i] != c by {
            assert(s[i] == x[i]);
        }
        assert(s[x.len() as int] == c);
        lemma_find_first(s, c, x.len() as int);
        assert(s.subrange(x.len() as int + 1, s.len() as int) =~= y);
        assert(s.subrange(0, x.len() as int) =~= x);
    } else {
        assert forall|i: int| 0 <= i < k implies #[trigger] s[i] != c by {
            assert(s[i] == x[i]);
        }
        assert(s[k] == x[k]);
        lemma_find_first(s, c, k);
        let x2 = x.subrange(k + 1, x.len() as int);
        assert(s.subrange(k + 1, s.len() as int) =~= x2 + seq![c] + y);
        assert(s.subrange(0, k) =~= x.subrange(0, k));
        lemma_split_concat(x2, y, c);
        assert(seq![x.subrange(0, k)] + (split_char(x2, c) + split_char(y, c))
            =~= (seq![x.subrange(0, k)] + split_char(x2, c)) + split_char(y, c));
    }
}

proof fn lemma_split_free(s: Seq<char>, c: char)
    ensures
        forall|i: int, j: int| 0 <= i < split_char(s, c).len() && 0 <= j < split_char(s, c)[i].len()
            ==> #[trigger] split_char(s, c)[i][j] != c,
    decreases s.len(),
{
    crate::text::lemma_find_from(s, c, 0);
    let k = crate::text::find_from(s, c, 0);
    if k >= s.len() {
        assert(split_char(s, c) == seq![s]);
    } else {
        let rest = s.subrange(k + 1, s.len() as int);
        lemma_split_free(rest, c);
        let sp = split_char(s, c);
        assert forall|i: int, j: int| 0 <= i < sp.len() && 0 <= j < sp[i].len() implies #[trigger] sp[i][j] != c by {
            if i == 0 {
                assert(sp[0] == s.subrange(0, k));
                assert(sp[0][j] == s[j]);
            } else {
                assert(sp[i] == split_char(rest, c)[i - 1]);
            }
        }
    }
}

proof fn lemma_normals_concat(a: Seq<Seq<char>>, b: Seq<Seq<char>>)
    ensures
        normals(a + b) == normals(a) + normals(b),
    decreases b.len(),
{
    if b.len() == 0 {
        assert(a + b =~= a);
        assert(normals(a) + normals(b) =~= normals(a));
    } else {
        assert((a + b).drop_last() =~= a + b.drop_last());
        assert((a + b).last() == b.last());
        lemma_normals_concat(a, b.drop_last());
        if is_normal_seg(b.last()) {
            assert(normals(a) + normals(b.drop_last()).push(b.last()) =~= (normals(a) + normals(b.drop_last())).push(b.last()));
        }
    }
}

proof fn lemma_normals_one(x: Seq<char>)
    ensures
        normals(seq![x]) == if is_normal_seg(x) { seq![x] } else { Seq::<Seq<char>>::empty() },
{
    assert(seq![x].drop_last() =~= Seq::<Seq<char>>::empty());
    assert(seq![x].last() == x);
    assert(normals(Seq::<Seq<char>>::empty()) == Seq::<Seq<char>>::empty());
    assert(Seq::<Seq<char>>::empty().push(x) =~= seq![x]);
}

proof fn lemma_normals_front(q: Seq<Seq<char>>)
    requires
        q.len() > 0,
    ensures
        normals(q) == normals(seq![q[0]]) + normals(q.drop_first()),
{
    assert(q =~= seq![q[0]] + q.drop_first());
    lemma_normals_concat(seq![q[0]], q.drop_first());
}

proof fn lemma_trim_front(q: Seq<Seq<char>>)
    ensures
        normals(trim_front_segs(q)) == normals(q),
        slash_free(q) ==> slash_free(trim_front_segs(q)),
        trim_front_segs(q).len() > 0 ==> is_normal_seg(trim_front_segs(q)[0]),
    decreases q.len(),
{
    if q.len() > 0 && !is_normal_seg(q[0]) {
        lemma_trim_front(q.drop_first());
        lemma_normals_front(q);
        lemma_normals_one(q[0]);
        assert(normals(seq![q[0]]) + normals(q.drop_first()) =~= normals(q.drop_first()));
        if slash_free(q) {
            let d = q.drop_first();
            assert forall|i: int, j: int| 0 <= i < d.len() && 0 <= j < d[i].len() implies #[trigger] d[i][j] != '/' by {
                assert(d[i] == q[i + 1]);
            }
        }
    }
}

proof fn lemma_trim_back(q: Seq<Seq<char>>)
    ensures
        normals(trim_back_segs(q)) == normals(q),
        slash_free(q) ==> slash_free(trim_back_segs(q)),
        q.len() > 0 && is_normal_seg(q[0]) ==> trim_back_segs(q).len() > 0 && trim_back_segs(q)[0] == q[0],
    decreases q.len(),
{
    if q.len() > 0 && !is_normal_seg(q.last()) {
        let d = q.drop_last();
        lemma_trim_back(d);
        if slash_free(q) {
            assert forall|i: int, j: int| 0 <= i < d.len() && 0 <= j < d[i].len() implies #[trigger] d[i][j] != '/' by {
                assert(d[i] == q[i]);
            }
        }
        if q.len() > 0 && is_normal_seg(q[0]) {
            assert(q.len() > 1);
            assert(d[0] == q[0]);
        }
    }
}

proof fn lemma_join_segs_prefix(t: Seq<Seq<char>>)
    requires
        t.len() > 0,
    ensures
        join_segs(t).len() >= t[0].len(),
        forall|j: int| 0 <= j < t[0].len() ==> #[trigger] join_segs(t)[j] == t[0][j],
    decreases t.len(),
{
    if t.len() > 1 {
        let d = t.drop_last();
        lemma_join_segs_prefix(d);
        assert(d[0] == t[0]);
        let js = join_segs(d) + "/"@ + t.last();
        assert forall|j: int| 0 <= j < t[0].len() implies #[trigger] join_segs(t)[j] == t[0][j] by {
            assert(js[j] == join_segs(d)[j]);
        }
    }
}

proof fn lemma_segs_join(t: Seq<Seq<char>>)
    requires
        slash_free(t),
    ensures
        normals(segs(join_segs(t))) == normals(t),
    decreases t.len(),
{
    reveal_strlit("/");
    if t.len() == 0 {
        lemma_split_plain(seq![], '/');
        lemma_normals_one(seq![]);
        assert(segs(join_segs(t)) == seq![Seq::<char>::empty()]);
    } else if t.len() == 1 {
        assert forall|k: int| 0 <= k < t[0].len() implies #[trigger] t[0][k] != '/' by {
            assert(t[0][k] != '/');
        }
        lemma_split_plain(t[0], '/');
        assert(t =~= seq![t[0]]);
    } else {
        let d = t.drop_last();
        let x = t.last();
        assert forall|i: int, j: int| 0 <= i < d.len() && 0 <= j < d[i].len() implies #[trigger] d[i][j] != '/' by {
            assert(d[i] == t[i]);
        }
        lemma_segs_join(d);
        assert forall|k: int| 0 <= k < x.len() implies #[trigger] x[k] != '/' by {
            assert(t[t.len() - 1] == x);
            assert(t[t.len() - 1][k] != '/');
        }
        lemma_split_plain(x, '/');
        assert("/"@ =~= seq!['/']);
        lemma_split_concat(join_segs(d), x, '/');
        lemma_normals_concat(segs(join_segs(d)), seq![x]);
        assert(t =~= d + seq![x]);
        lemma_normals_concat(d, seq![x]);
    }
}

proof fn lemma_nth(body: Seq<Seq<char>>, k: int, i: int)
    requires
        0 <= i <= body.len(),
        1 <= k <= normals(body.subrange(i, body.len() as int)).len(),
    ensures
        i <= nth_normal_index(body, k, i) < body.len(),
        normals(body.subrange(nth_normal_index(body, k, i) + 1, body.len() as int))
            == normals(body.subrange(i, body.len() as int)).subrange(k, normals(body.subrange(i, body.len() as int)).len() as int),
    decreases body.len() - i,
{
    let t = body.subrange(i, body.len() as int);
    if i == body.len() {
        assert(t =~= Seq::<Seq<char>>::empty());
    } else {
        lemma_normals_front(t);
        lemma_normals_one(t[0]);
        assert(t[0] == body[i]);
        assert(t.drop_first() =~= body.subrange(i + 1, body.len() as int));
        let nt = normals(t);
        let n2 = normals(body.subrange(i + 1, body.len() as int));
        if is_normal_seg(body[i]) {
            assert(nt =~= seq![body[i]] + n2);
            if k <= 1 {
                assert(nt.subrange(k, nt.len() as int) =~= n2);
            } else {
                lemma_nth(body, k - 1, i + 1);
                assert(nt.subrange(k, nt.len() as int) =~= n2.subrange(k - 1, n2.len() as int));
            }
        } else {
            assert(nt =~= n2);
            lemma_nth(body, k, i + 1);
        }
    }
}

proof fn lemma_components_split(p: Seq<char>)
    ensures
        lead(p) <= 1,
        components(p) == components(p).subrange(0, lead(p)) + normals(segs(p).subrange(lead(p), segs(p).len() as int)),
        slash_free(segs(p)),
        segs(p).len() >= 1,
{
    lemma_split_nonempty(p, '/');
    lemma_split_free(p, '/');
    let head: Seq<Seq<char>> = if has_root(p) { seq!["/"@] } else if cur_start(p) { seq!["."@] } else { seq![] };
    assert(head.len() == lead(p));
    assert(components(p).subrange(0, lead(p)) =~= head);
}

proof fn lemma_rest_after(p: Seq<char>, n: int)
    requires
        1 <= n,
        lead(p) <= n <= components(p).len(),
    ensures
        normals(segs(rest_after(p, n))) == components(p).subrange(n, components(p).len() as int),
        !has_root(rest_after(p, n)),
{
    lemma_components_split(p);
    let pc = components(p);
    let sp = segs(p);
    let body = sp.subrange(lead(p), sp.len() as int);
    let nb = normals(body);
    assert(pc.subrange(n, pc.len() as int) =~= nb.subrange(n - lead(p), nb.len() as int));
    let k = n - lead(p);
    let rest = if k <= 0 {
        body
    } else {
        let idx = nth_normal_index(body, k, 0);
        body.subrange(if idx < body.len() { idx + 1 } else { body.len() as int }, body.len() as int)
    };
    if k <= 0 {
        assert(nb.subrange(0, nb.len() as int) =~= nb);
    } else {
        assert(body.subrange(0, body.len() as int) =~= body);
        lemma_nth(body, k, 0);
    }
    assert(normals(rest) == pc.subrange(n, pc.len() as int));
    assert(slash_free(rest)) by {
        assert forall|i: int, j: int| 0 <= i < rest.len() && 0 <= j < rest[i].len() implies #[trigger] rest[i][j] != '/' by {
            let off = sp.len() - rest.len();
            assert(rest[i] == sp[i + off]);
        }
    }
    let tf = trim_front_segs(rest);
    lemma_trim_front(rest);
    lemma_trim_back(tf);
    let t = trim_back_segs(tf);
    lemma_segs_join(t);
    if t.len() > 0 {
        lemma_join_segs_prefix(t);
        assert(t[0] == tf[0]);
        assert(t[0] != Seq::<char>::empty());
        assert(t[0].len() > 0) by {
            if t[0].len() == 0 {
                assert(t[0] =~= Seq::<char>::empty());
            }
        }
        assert(join_segs(t)[0] == t[0][0]);
        assert(t[0][0] != '/');
    } else {
        assert(join_segs(t) == Seq::<char>::empty());
    }
}

/// A path made relative to the reservoir root names the same place from the
/// root as the path the user gave names from the working directory: joining
/// the result of `adjust_path` to the root gives the components of joining the
/// user's path to `cwd`. This holds whenever that path lies under the root
/// (otherwise the user's path is returned unchanged) and the root has a
/// component (the empty root text names no directory).
pub proof fn law_adjusted_path_names_the_same_place(cwd: Seq<char>, root: Seq<char>, user_path: Seq<char>)
    requires
        strip_prefix_path(join_path(cwd, user_path), root) is Some,
        components(root).len() > 0,
    ensures
        components(join_path(root, adjust_path_spec(cwd, root, user_path))) == components(join_path(cwd, user_path)),
{
    reveal_strlit("/");
    reveal_strlit(".");
    let p = join_path(cwd, user_path);
    let pc = components(p);
    let bc = components(root);
    let n = bc.len() as int;
    let rel = rest_after(p, n);
    lemma_components_split(p);
    lemma_components_split(root);
    assert(pc.subrange(0, n) == bc);
    lemma_rest_after(p, n);
    let a = adjust_path_spec(cwd, root, user_path);
    assert(a == if rel.len() == 0 { "."@ } else { rel });
    // the normals `a` adds to the root
    assert(!has_root(a));
    assert(normals(segs(a)) == pc.subrange(n, pc.len() as int)) by {
        if rel.len() == 0 {
            assert(rel =~= Seq::<char>::empty());
            lemma_split_plain(seq![], '/');
            lemma_normals_one(seq![]);
            assert(normals(segs(rel)) =~= Seq::<Seq<char>>::empty());
            assert(forall|k: int| 0 <= k < "."@.len() ==> #[trigger] "."@[k] != '/');
            lemma_split_plain("."@, '/');
            lemma_normals_one("."@);
        }
    }
    // the root is not empty text
    if root.len() == 0 {
        lemma_split_plain(root, '/');
        lemma_normals_one(root);
        assert(segs(root) == seq![root]);
        assert(root =~= Seq::<char>::empty());
        assert(!cur_start(root));
        assert(segs(root).subrange(0, 1) =~= seq![root]);
        assert(bc.len() == 0);
    }
    let slash_end = root.last() == '/';
    let x = if slash_end { root.drop_last() } else { root };
    let joined = x + seq!['/'] + a;
    assert(join_path(root, a) == joined) by {
        if slash_end {
            assert(root =~= x + seq!['/']);
        }
    }
    lemma_split_concat(x, a, '/');
    lemma_split_nonempty(x, '/');
    let sx = segs(x);
    let sa = segs(a);
    assert(segs(joined) == sx + sa);
    if slash_end {
        lemma_split_concat(x, seq![], '/');
        assert(root =~= x + seq!['/'] + Seq::<char>::empty());
        lemma_split_plain(seq![], '/');
    }
    assert(segs(root) == if slash_end { sx + seq![Seq::<char>::empty()] } else { sx });
    // the same head and lead
    assert(has_root(joined) == has_root(root)) by {
        if x.len() > 0 {
            assert(joined[0] == x[0]);
            assert(root[0] == x[0]);
        }
    }
    assert(segs(joined)[0] == sx[0]);
    assert(segs(root)[0] == sx[0]);
    assert(cur_start(joined) == cur_start(root));
    assert(lead(joined) == lead(root));
    let l = lead(root);
    let bx = sx.subrange(l, sx.len() as int);
    assert(segs(joined).subrange(l, segs(joined).len() as int) =~= bx + sa);
    lemma_normals_concat(bx, sa);
    if slash_end {
        assert(segs(root).subrange(l, segs(root).len() as int) =~= bx + seq![Seq::<char>::empty()]);
        lemma_normals_concat(bx, seq![Seq::<char>::empty()]);
        lemma_normals_one(Seq::<char>::empty());
        assert(normals(bx) + Seq::<Seq<char>>::empty() =~= normals(bx));
    } else {
        assert(segs(root).subrange(l, segs(root).len() as int) =~= bx);
    }
    let head: Seq<Seq<char>> = if has_root(root) { seq!["/"@] } else if cur_start(root) { seq!["."@] } else { seq![] };
    assert(bc == head + normals(bx));
    assert(components(joined) == head + (normals(bx) + normals(sa)));
    assert(components(joined) =~= bc + pc.subrange(n, pc.len() as int));
    assert(pc =~= pc.subrange(0, n) + pc.subrange(n, pc.len() as int));
}
} // verus!

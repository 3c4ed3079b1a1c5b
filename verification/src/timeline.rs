//! Views of the seal history: the graph of all seals in time order, drawn
//! one column per stream, and the listings of a stream's first-parent chain.

use vstd::prelude::*;
use crate::seal::{FileEntry, Seal, strings_view};
use crate::text::{
    chars_of, find_from, find_from_exec, lemma_find_from, lit, push_all, replace_char,
    replace_char_exec, slice_chars, str_eq, string_of, trim_end, trim_end_exec,
};
use crate::staging::{lex_lt, lex_less, lemma_lex_irreflexive, lemma_lex_trichotomy, lemma_lex_transitive};

verus! {

/// Whether the seal at index `a` comes before the one at `b`: by timestamp
/// text, and among equal timestamps by position (the sort is stable).
pub open spec fn earlier(ts: Seq<Seq<char>>, a: int, b: int) -> bool {
    lex_lt(ts[a], ts[b]) || (ts[a] == ts[b] && a < b)
}

/// Whether `order` is strictly increasing under [`earlier`].
pub open spec fn sorted_by_time(ts: Seq<Seq<char>>, order: Seq<usize>) -> bool {
    forall|i: int, j: int|
        0 <= i < j < order.len() ==> earlier(ts, #[trigger] order[i] as int, #[trigger] order[j] as int)
}

/// `order` holds every index of `ts` once, from the earliest seal to the latest.
pub open spec fn is_chronological(ts: Seq<Seq<char>>, order: Seq<usize>) -> bool {
    &&& order.len() == ts.len()
    &&& forall|i: int| 0 <= i < order.len() ==> #[trigger] order[i] < ts.len()
    &&& forall|k: usize| k < ts.len() ==> #[trigger] order.contains(k)
    &&& sorted_by_time(ts, order)
}

proof fn lemma_earlier_transitive(ts: Seq<Seq<char>>, a: int, b: int, c: int)
    requires
        earlier(ts, a, b),
        earlier(ts, b, c),
    ensures
        earlier(ts, a, c),
{
    if lex_lt(ts[a], ts[b]) && lex_lt(ts[b], ts[c]) {
        lemma_lex_transitive(ts[a], ts[b], ts[c]);
    }
}

/// Inserting `k` where the scan stopped keeps the order sorted.
proof fn lemma_insert_sorted(ts: Seq<Seq<char>>, old: Seq<usize>, p: int, k: usize)
    requires
        0 <= p <= old.len(),
        k < ts.len(),
        forall|i: int| 0 <= i < old.len() ==> #[trigger] old[i] < k,
        sorted_by_time(ts, old),
        forall|j: int| p <= j < old.len() ==> lex_lt(ts[k as int], ts[#[trigger] old[j] as int]),
        p > 0 ==> !lex_lt(ts[k as int], ts[old[p - 1] as int]),
    ensures
        sorted_by_time(ts, old.insert(p, k)),
{
    let new = old.insert(p, k);
    assert(new.len() == old.len() + 1);
    if p > 0 {
        let q = old[p - 1];
        lemma_lex_trichotomy(ts[k as int], ts[q as int]);
        assert(earlier(ts, q as int, k as int));
    }
    assert forall|i: int, j: int| 0 <= i < j < new.len() implies earlier(
        ts,
        #[trigger] new[i] as int,
        #[trigger] new[j] as int,
    ) by {
        if j < p {
            assert(new[i] == old[i] && new[j] == old[j]);
        } else if i > p {
            assert(new[i] == old[i - 1] && new[j] == old[j - 1]);
        } else if i == p {
            assert(new[i] == k && new[j] == old[j - 1]);
        } else if j == p {
            assert(new[i] == old[i] && new[j] == k);
            if i < p - 1 {
                assert(earlier(ts, old[i] as int, old[p - 1] as int));
                lemma_earlier_transitive(ts, old[i] as int, old[p - 1] as int, k as int);
            }
        } else {
            assert(new[i] == old[i] && new[j] == old[j - 1]);
        }
    }
}

/// The indices of the seals whose timestamps are `ts`, earliest first; seals
/// with equal timestamps keep their order.
pub fn chronological_order(ts: &Vec<String>) -> (order: Vec<usize>)
    ensures
        is_chronological(strings_view(ts@), order@),
{
    let ghost tv = strings_view(ts@);
    let mut order: Vec<usize> = Vec::new();
    let mut k: usize = 0;
    while k < ts.len()
        invariant
            tv == strings_view(ts@),
            0 <= k <= ts@.len(),
            order@.len() == k,
            forall|i: int| 0 <= i < order@.len() ==> #[trigger] order@[i] < k,
            forall|m: usize| m < k ==> #[trigger] order@.contains(m),
            sorted_by_time(tv, order@),
        decreases ts@.len() - k,
    {
        let mut p: usize = order.len();
        while p > 0 && lex_less(ts[k].as_str(), ts[order[p - 1]].as_str())
            invariant
                tv == strings_view(ts@),
                k < ts@.len(),
                p <= order@.len(),
                forall|i: int| 0 <= i < order@.len() ==> #[trigger] order@[i] < k,
                forall|j: int|
                    p <= j < order@.len() ==> lex_lt(tv[k as int], tv[#[trigger] order@[j] as int]),
            decreases p,
        {
            p -= 1;
        }
        let ghost old = order@;
        proof {
            lemma_insert_sorted(tv, old, p as int, k);
        }
        order.insert(p, k);
        proof {
            assert forall|m: usize| m < k + 1 implies #[trigger] order@.contains(m) by {
                if m == k {
                    assert(order@[p as int] == k);
                } else {
                    assert(old.contains(m));
                    let w = choose|w: int| 0 <= w < old.len() && old[w] == m;
                    if w < p {
                        assert(order@[w] == old[w]);
                    } else {
                        assert(order@[w + 1] == old[w]);
                    }
                }
            }
            assert forall|i: int| 0 <= i < order@.len() implies #[trigger] order@[i] < k + 1 by {
                if i < p {
                    assert(order@[i] == old[i]);
                } else if i > p {
                    assert(order@[i] == old[i - 1]);
                }
            }
        }
        k += 1;
    }
    order
}

proof fn lemma_earlier_asymmetric(ts: Seq<Seq<char>>, a: int, b: int)
    requires
        earlier(ts, a, b),
    ensures
        !earlier(ts, b, a),
{
    lemma_lex_trichotomy(ts[a], ts[b]);
    lemma_lex_irreflexive(ts[a]);
}

proof fn lemma_chronological_prefix(ts: Seq<Seq<char>>, o1: Seq<usize>, o2: Seq<usize>, i: int)
    requires
        is_chronological(ts, o1),
        is_chronological(ts, o2),
        0 <= i <= o1.len(),
    ensures
        forall|k: int| 0 <= k < i ==> o1[k] == o2[k],
    decreases i,
{
    if i > 0 {
        lemma_chronological_prefix(ts, o1, o2, i - 1);
        let n = o1.len();
        let p = i - 1;
        let x = o1[p];
        assert(o2.contains(x));
        let j = choose|j: int| 0 <= j < o2.len() && o2[j] == x;
        if j < p {
            assert(o2[j] == o1[j]);
            assert(earlier(ts, o1[j] as int, o1[p] as int));
            lemma_lex_irreflexive(ts[x as int]);
        } else if j > p {
            let y = o2[p];
            assert(o1.contains(y));
            let m = choose|m: int| 0 <= m < o1.len() && o1[m] == y;
            if m < p {
                assert(o1[m] == o2[m]);
                assert(earlier(ts, o2[m] as int, o2[p] as int));
                lemma_lex_irreflexive(ts[y as int]);
            } else if m == p {
                assert(x == y);
                assert(earlier(ts, o2[p] as int, o2[j] as int));
                lemma_lex_irreflexive(ts[x as int]);
            } else {
                assert(earlier(ts, o1[p] as int, o1[m] as int));
                assert(earlier(ts, o2[p] as int, o2[j] as int));
                lemma_earlier_asymmetric(ts, x as int, y as int);
            }
        }
        assert(o1[p] == o2[p]);
    }
}

/// The graph's order of seals is fixed by their timestamps and their places
/// in the list: there is only one chronological order.
pub proof fn law_chronological_order_is_unique(ts: Seq<Seq<char>>, o1: Seq<usize>, o2: Seq<usize>)
    requires
        is_chronological(ts, o1),
        is_chronological(ts, o2),
    ensures
        o1 == o2,
{
    lemma_chronological_prefix(ts, o1, o2, o1.len() as int);
    assert(o1 =~= o2);
}

/// The distinct streams of `s`, in the order in which each first appears.
pub open spec fn first_appearances(s: Seq<Seq<char>>) -> Seq<Seq<char>>
    decreases s.len(),
{
    if s.len() == 0 {
        seq![]
    } else {
        let p = first_appearances(s.drop_last());
        if p.contains(s.last()) {
            p
        } else {
            p.push(s.last())
        }
    }
}

/// The first index at or after `i` where `s` holds `x`, or the length when
/// there is none.
pub open spec fn position_from(s: Seq<Seq<char>>, x: Seq<char>, i: int) -> int
    decreases s.len() - i,
{
    if i < 0 || i >= s.len() {
        s.len() as int
    } else if s[i] == x {
        i
    } else {
        position_from(s, x, i + 1)
    }
}

proof fn lemma_position_from(s: Seq<Seq<char>>, x: Seq<char>, i: int)
    requires
        0 <= i <= s.len(),
    ensures
        i <= position_from(s, x, i) <= s.len(),
        forall|k: int| i <= k < position_from(s, x, i) ==> #[trigger] s[k] != x,
        position_from(s, x, i) < s.len() ==> s[position_from(s, x, i)] == x,
    decreases s.len() - i,
{
    if i < s.len() && s[i] != x {
        lemma_position_from(s, x, i + 1);
    }
}

/// Appending an item leaves the position of one already present unchanged.
proof fn lemma_position_push(s: Seq<Seq<char>>, y: Seq<char>, x: Seq<char>, i: int)
    requires
        0 <= i <= s.len(),
        position_from(s, x, i) < s.len(),
    ensures
        position_from(s.push(y), x, i) == position_from(s, x, i),
    decreases s.len() - i,
{
    if s[i] != x {
        lemma_position_push(s, y, x, i + 1);
    }
}

/// The position of an item in `s` from 0 is below the length exactly when `s` holds it.
proof fn lemma_position_contains(s: Seq<Seq<char>>, x: Seq<char>)
    ensures
        position_from(s, x, 0) < s.len() <==> s.contains(x),
{
    lemma_position_from(s, x, 0);
    if s.contains(x) {
        let w = choose|w: int| 0 <= w < s.len() && s[w] == x;
        assert(w >= position_from(s, x, 0));
    }
}

/// The index of `x` in `cols`, found by a scan from the front.
fn position_exec(cols: &Vec<String>, x: &String) -> (r: usize)
    ensures
        r == position_from(strings_view(cols@), x@, 0),
{
    let ghost cv = strings_view(cols@);
    let mut i: usize = 0;
    while i < cols.len() && !str_eq(cols[i].as_str(), x.as_str())
        invariant
            cv == strings_view(cols@),
            0 <= i <= cols@.len(),
            position_from(cv, x@, i as int) == position_from(cv, x@, 0),
        decreases cols@.len() - i,
    {
        i += 1;
    }
    i
}

/// The columns of a graph drawn with one column per stream: the distinct
/// streams in order of first appearance, and for each item of `streams` the
/// column of its stream.
pub fn stream_columns(streams: &Vec<String>) -> (r: (Vec<String>, Vec<usize>))
    ensures
        strings_view(r.0@) == first_appearances(strings_view(streams@)),
        r.1@.len() == streams@.len(),
        forall|i: int|
            0 <= i < streams@.len() ==> {
                &&& #[trigger] r.1@[i] < r.0@.len()
                &&& r.1@[i] == position_from(r.0@.map_values(|s: String| s@), streams@[i]@, 0)
                &&& r.0@[r.1@[i] as int]@ == streams@[i]@
            },
{
    let ghost sv = strings_view(streams@);
    let mut cols: Vec<String> = Vec::new();
    let mut idx: Vec<usize> = Vec::new();
    let mut i: usize = 0;
    while i < streams.len()
        invariant
            sv == strings_view(streams@),
            0 <= i <= streams@.len(),
            strings_view(cols@) == first_appearances(sv.subrange(0, i as int)),
            idx@.len() == i,
            forall|j: int|
                0 <= j < i ==> {
                    &&& #[trigger] idx@[j] < cols@.len()
                    &&& idx@[j] == position_from(strings_view(cols@), sv[j], 0)
                },
        decreases streams@.len() - i,
    {
        let ghost before = strings_view(cols@);
        let x = &streams[i];
        let p = position_exec(&cols, x);
        proof {
            lemma_position_contains(before, sv[i as int]);
            lemma_position_from(before, sv[i as int], 0);
            assert(sv.subrange(0, i + 1).drop_last() =~= sv.subrange(0, i as int));
            assert(sv.subrange(0, i + 1).last() == sv[i as int]);
        }
        proof {
            assert forall|j: int| 0 <= j < i implies #[trigger] idx@[j] < before.len()
                && idx@[j] == position_from(before, sv[j], 0) by {}
        }
        if p == cols.len() {
            cols.push(x.clone());
            proof {
                let nb = before.push(sv[i as int]);
                assert(strings_view(cols@) =~= nb);
                assert forall|j: int| 0 <= j < i implies {
                    &&& #[trigger] idx@[j] < cols@.len()
                    &&& idx@[j] == position_from(strings_view(cols@), sv[j], 0)
                } by {
                    assert(idx@[j] < before.len());
                    lemma_position_push(before, sv[i as int], sv[j], 0);
                }
                lemma_position_from(nb, sv[i as int], 0);
                assert(nb[before.len() as int] == sv[i as int]);
                assert(forall|k: int| 0 <= k < before.len() ==> nb[k] == before[k]);
                if position_from(nb, sv[i as int], 0) < before.len() {
                    let q = position_from(nb, sv[i as int], 0);
                    assert(before[q] == sv[i as int]);
                }
                assert(position_from(nb, sv[i as int], 0) == p);
            }
        }
        idx.push(p);
        i += 1;
    }
    proof {
        assert(sv.subrange(0, i as int) =~= sv);
        assert(cols@.map_values(|s: String| s@) =~= strings_view(cols@));
        assert forall|j: int| 0 <= j < streams@.len() implies cols@[idx@[j] as int]@ == streams@[j]@ by {
            lemma_position_from(strings_view(cols@), sv[j], 0);
        }
    }
    (cols, idx)
}

/// A column that passes by: the rail drawn in every column but the seal's own.
pub open spec fn rail() -> Seq<char> {
    seq!['│', ' ', ' ', ' ']
}

/// The cell of column `i` in the line drawn above a seal in column `col`:
/// a split mark there when the seal has several parents, a rail otherwise.
pub open spec fn edge_cell(i: int, col: int, merge: bool) -> Seq<char> {
    if i == col && merge {
        seq!['⏽', ' ', '╲', ' ']
    } else {
        rail()
    }
}

/// The cell of column `i` in the line of a seal in column `col`.
pub open spec fn node_cell(i: int, col: int, mark: char) -> Seq<char> {
    if i == col {
        seq![mark, ' ', ' ', ' ']
    } else {
        rail()
    }
}

/// The first `n` cells of the line drawn above a seal in column `col`.
pub open spec fn edge_row(n: nat, col: int, merge: bool) -> Seq<char>
    decreases n,
{
    if n == 0 {
        seq![]
    } else {
        edge_row((n - 1) as nat, col, merge) + edge_cell(n - 1, col, merge)
    }
}

/// The first `n` cells of the line of a seal in column `col`.
pub open spec fn node_row(n: nat, col: int, mark: char) -> Seq<char>
    decreases n,
{
    if n == 0 {
        seq![]
    } else {
        node_row((n - 1) as nat, col, mark) + node_cell(n - 1, col, mark)
    }
}

/// The mark of a seal: filled when it belongs to the active stream.
pub open spec fn head_mark(active: bool) -> char {
    if active {
        '●'
    } else {
        '○'
    }
}

/// A timestamp for display: `T` shown as a space, and the text cut before the
/// first `stop` character.
pub open spec fn time_before(ts: Seq<char>, stop: char) -> Seq<char> {
    let r = replace_char(ts, 'T', ' ');
    r.subrange(0, find_from(r, stop, 0))
}

/// The text of a seal's line in the graph: its cells, then id, time, stream and message.
pub open spec fn graph_node_text(
    row: Seq<char>,
    id: Seq<char>,
    ts: Seq<char>,
    stream: Seq<char>,
    message: Seq<char>,
) -> Seq<char> {
    trim_end(row) + seq![' '] + id + seq![' ', '('] + time_before(ts, '.') + seq![
        ')',
        ' ',
        '-',
        ' ',
        '[',
    ] + stream + seq![']', ' ', '"'] + message + seq!['"']
}

fn push_cell(v: &mut Vec<char>, a: char, b: char)
    ensures
        final(v)@ == old(v)@ + seq![a, ' ', b, ' '],
{
    v.push(a);
    v.push(' ');
    v.push(b);
    v.push(' ');
    assert(v@ =~= old(v)@ + seq![a, ' ', b, ' ']);
}

/// The line drawn above a seal in column `col` of `n`, without trailing spaces.
pub fn edge_line(n: usize, col: usize, merge: bool) -> (r: Vec<char>)
    ensures
        r@ == trim_end(edge_row(n as nat, col as int, merge)),
{
    let mut row: Vec<char> = Vec::new();
    let mut i: usize = 0;
    while i < n
        invariant
            i <= n,
            row@ == edge_row(i as nat, col as int, merge),
        decreases n - i,
    {
        if i == col && merge {
            push_cell(&mut row, '⏽', '╲');
        } else {
            push_cell(&mut row, '│', ' ');
        }
        i += 1;
    }
    trim_end_exec(row.as_slice())
}

fn node_row_exec(n: usize, col: usize, mark: char) -> (r: Vec<char>)
    ensures
        r@ == node_row(n as nat, col as int, mark),
{
    let mut row: Vec<char> = Vec::new();
    let mut i: usize = 0;
    while i < n
        invariant
            i <= n,
            row@ == node_row(i as nat, col as int, mark),
        decreases n - i,
    {
        if i == col {
            push_cell(&mut row, mark, ' ');
        } else {
            push_cell(&mut row, '│', ' ');
        }
        i += 1;
    }
    row
}

fn time_before_exec(ts: &str, stop: char) -> (r: Vec<char>)
    ensures
        r@ == time_before(ts@, stop),
{
    let cs = chars_of(ts);
    let r = replace_char_exec(cs.as_slice(), 'T', ' ');
    let k = find_from_exec(r.as_slice(), stop, 0);
    proof {
        lemma_find_from(r@, stop, 0);
    }
    slice_chars(r.as_slice(), 0, k)
}

/// A timestamp as the listings show it: `T` as a space, cut before the first `stop`.
pub fn clean_time(ts: &str, stop: char) -> (r: String)
    ensures
        r@ == time_before(ts@, stop),
{
    let v = time_before_exec(ts, stop);
    string_of(v.as_slice())
}

/// The line of a seal in the graph, in column `col` of `n`.
pub fn node_line(n: usize, col: usize, mark: char, s: &Seal) -> (r: String)
    ensures
        r@ == graph_node_text(node_row(n as nat, col as int, mark), s.id@, s.timestamp@, s.stream@, s.message@),
{
    let row = node_row_exec(n, col, mark);
    let mut v = trim_end_exec(row.as_slice());
    v.push(' ');
    push_all(&mut v, chars_of(s.id.as_str()).as_slice());
    v.push(' ');
    v.push('(');
    push_all(&mut v, time_before_exec(s.timestamp.as_str(), '.').as_slice());
    v.push(')');
    v.push(' ');
    v.push('-');
    v.push(' ');
    v.push('[');
    push_all(&mut v, chars_of(s.stream.as_str()).as_slice());
    v.push(']');
    v.push(' ');
    v.push('"');
    push_all(&mut v, chars_of(s.message.as_str()).as_slice());
    v.push('"');
    proof {
        assert(v@ =~= graph_node_text(
            node_row(n as nat, col as int, mark),
            s.id@,
            s.timestamp@,
            s.stream@,
            s.message@,
        ));
    }
    string_of(v.as_slice())
}

/// The streams of the seals, taken in the order `order` lists them.
pub open spec fn streams_in(seals: Seq<Seal>, order: Seq<usize>) -> Seq<Seq<char>> {
    order.map_values(|o: usize| seals[o as int].stream@)
}

/// The columns of the graph: the streams in order of first appearance.
pub open spec fn graph_columns(seals: Seq<Seal>, order: Seq<usize>) -> Seq<Seq<char>> {
    first_appearances(streams_in(seals, order))
}

/// The line of the seal at place `j` of `order`.
pub open spec fn graph_node_line(seals: Seq<Seal>, order: Seq<usize>, j: int, active: Seq<char>) -> Seq<char> {
    let s = seals[order[j] as int];
    let cols = graph_columns(seals, order);
    graph_node_text(
        node_row(cols.len(), position_from(cols, s.stream@, 0), head_mark(s.stream@ == active)),
        s.id@,
        s.timestamp@,
        s.stream@,
        s.message@,
    )
}

/// The line drawn above the seal at place `j` of `order`.
pub open spec fn graph_edge_line(seals: Seq<Seal>, order: Seq<usize>, j: int) -> Seq<char> {
    let s = seals[order[j] as int];
    let cols = graph_columns(seals, order);
    trim_end(edge_row(cols.len(), position_from(cols, s.stream@, 0), s.parents@.len() > 1))
}

/// The lines for the `k` latest seals of `order`, latest first: each seal's
/// line, with the line above it for all but the first.
pub open spec fn graph_lines(seals: Seq<Seal>, order: Seq<usize>, active: Seq<char>, k: nat) -> Seq<Seq<char>>
    decreases k,
{
    if k == 0 {
        seq![]
    } else {
        let j = order.len() - k;
        let prev = graph_lines(seals, order, active, (k - 1) as nat);
        if k == 1 {
            seq![graph_node_line(seals, order, j, active)]
        } else {
            prev.push(graph_edge_line(seals, order, j)).push(graph_node_line(seals, order, j, active))
        }
    }
}

/// The lines of the graph of `seals` taken in the order `order`, latest
/// first, with the seals of stream `active` marked.
pub fn draw_graph(seals: &Vec<Seal>, order: &Vec<usize>, active: &str) -> (r: Vec<String>)
    requires
        forall|i: int| 0 <= i < order@.len() ==> #[trigger] order@[i] < seals@.len(),
    ensures
        strings_view(r@) == graph_lines(seals@, order@, active@, order@.len() as nat),
{
    let n = order.len();
    let mut cs: Vec<String> = Vec::new();
    let mut j: usize = 0;
    while j < n
        invariant
            n == order@.len(),
            forall|i: int| 0 <= i < order@.len() ==> #[trigger] order@[i] < seals@.len(),
            j <= n,
            strings_view(cs@) == streams_in(seals@, order@).subrange(0, j as int),
        decreases n - j,
    {
        let c = seals[order[j]].stream.clone();
        assert(streams_in(seals@, order@)[j as int] == seals@[order@[j as int] as int].stream@);
        let ghost before = strings_view(cs@);
        cs.push(c);
        j += 1;
        proof {
            assert(strings_view(cs@) =~= before.push(c@));
            assert(streams_in(seals@, order@).subrange(0, j as int) =~= streams_in(seals@, order@).subrange(0, j - 1).push(c@));
        }
    }
    proof {
        assert(streams_in(seals@, order@).subrange(0, n as int) =~= streams_in(seals@, order@));
    }
    let (cols, idx) = stream_columns(&cs);
    let ghost gc = graph_columns(seals@, order@);
    assert(cols@.map_values(|s: String| s@) =~= gc);
    let ncols = cols.len();
    let mut r: Vec<String> = Vec::new();
    let mut k: usize = 0;
    while k < n
        invariant
            n == order@.len(),
            forall|i: int| 0 <= i < order@.len() ==> #[trigger] order@[i] < seals@.len(),
            0 <= k <= n,
            strings_view(cs@) == streams_in(seals@, order@),
            gc == graph_columns(seals@, order@),
            ncols == gc.len(),
            idx@.len() == n,
            forall|i: int|
                0 <= i < n ==> #[trigger] idx@[i] == position_from(gc, cs@[i]@, 0),
            strings_view(r@) == graph_lines(seals@, order@, active@, k as nat),
        decreases n - k,
    {
        let j = n - 1 - k;
        let s = &seals[order[j]];
        let col = idx[j];
        assert(strings_view(cs@)[j as int] == cs@[j as int]@);
        assert(streams_in(seals@, order@)[j as int] == s.stream@);
        let ghost before = strings_view(r@);
        if k > 0 {
            let e = edge_line(ncols, col, s.parents.len() > 1);
            r.push(string_of(e.as_slice()));
        }
        let mark = if str_eq(s.stream.as_str(), active) {
            '●'
        } else {
            '○'
        };
        let line = node_line(ncols, col, mark, s);
        r.push(line);
        proof {
            if k > 0 {
                assert(strings_view(r@) =~= before.push(graph_edge_line(seals@, order@, j as int)).push(
                    graph_node_line(seals@, order@, j as int, active@),
                ));
            } else {
                assert(strings_view(r@) =~= seq![graph_node_line(seals@, order@, j as int, active@)]);
            }
        }
        k += 1;
    }
    r
}

/// The timestamps of the seals.
pub open spec fn timestamps(seals: Seq<Seal>) -> Seq<Seq<char>> {
    seals.map_values(|s: Seal| s.timestamp@)
}

/// The graph of all seals, latest first, one column per stream in order of
/// first appearance, the seals of stream `active` marked.
pub fn render_ascii_dag(seals: &Vec<Seal>, active: &str) -> (r: Vec<String>)
    ensures
        exists|order: Seq<usize>|
            is_chronological(timestamps(seals@), order) && strings_view(r@) == graph_lines(
                seals@,
                order,
                active@,
                order.len() as nat,
            ),
{
    let mut ts: Vec<String> = Vec::new();
    let mut i: usize = 0;
    while i < seals.len()
        invariant
            i <= seals@.len(),
            strings_view(ts@) == timestamps(seals@).subrange(0, i as int),
        decreases seals@.len() - i,
    {
        let t = seals[i].timestamp.clone();
        assert(timestamps(seals@)[i as int] == seals@[i as int].timestamp@);
        let ghost before = strings_view(ts@);
        ts.push(t);
        i += 1;
        proof {
            assert(strings_view(ts@) =~= before.push(t@));
            assert(timestamps(seals@).subrange(0, i as int) =~= timestamps(seals@).subrange(0, i - 1).push(t@));
        }
    }
    proof {
        assert(timestamps(seals@).subrange(0, i as int) =~= timestamps(seals@));
    }
    let order = chronological_order(&ts);
    let r = draw_graph(seals, &order, active);
    assert(is_chronological(timestamps(seals@), order@));
    r
}

/// Parts with `sep` between each two, as `join` on a slice of strings gives them.
pub open spec fn join_with(parts: Seq<Seq<char>>, sep: Seq<char>) -> Seq<char>
    decreases parts.len(),
{
    if parts.len() == 0 {
        seq![]
    } else if parts.len() == 1 {
        parts[0]
    } else {
        join_with(parts.drop_last(), sep) + sep + parts.last()
    }
}

/// The strings of `parts` with `sep` between each two.
pub fn join_with_exec(parts: &Vec<String>, sep: &[char]) -> (r: Vec<char>)
    ensures
        r@ == join_with(strings_view(parts@), sep@),
{
    let ghost pv = strings_view(parts@);
    let mut r: Vec<char> = Vec::new();
    let mut i: usize = 0;
    while i < parts.len()
        invariant
            pv == strings_view(parts@),
            i <= parts@.len(),
            r@ == join_with(pv.subrange(0, i as int), sep@),
        decreases parts@.len() - i,
    {
        if i > 0 {
            push_all(&mut r, sep);
        }
        push_all(&mut r, chars_of(parts[i].as_str()).as_slice());
        i += 1;
        proof {
            assert(pv.subrange(0, i as int).drop_last() =~= pv.subrange(0, i - 1));
            assert(pv.subrange(0, i as int).last() == parts@[i - 1]@);
            if i == 1 {
                assert(pv.subrange(0, 0) =~= Seq::<Seq<char>>::empty());
            }
        }
    }
    proof {
        assert(pv.subrange(0, i as int) =~= pv);
    }
    r
}

/// The parents of a seal as the history listing shows them.
pub open spec fn parents_text(parents: Seq<Seq<char>>) -> Seq<char> {
    if parents.len() == 0 {
        "root"@
    } else {
        join_with(parents, ", "@)
    }
}

/// The line of a seal in the listing of a stream's latest seals.
pub open spec fn history_line_text(s: Seal) -> Seq<char> {
    "  "@ + s.id@ + " | "@ + time_before(s.timestamp@, '+') + " | parents: ["@ + parents_text(
        strings_view(s.parents@),
    ) + "] | "@ + seq!['"'] + s.message@ + seq!['"']
}

/// The line listing seal `s`: id, time without its offset, parents (or
/// `root`) and message.
pub fn history_line(s: &Seal) -> (r: String)
    ensures
        r@ == history_line_text(*s),
{
    let mut v = lit("  ");
    push_all(&mut v, chars_of(s.id.as_str()).as_slice());
    push_all(&mut v, lit(" | ").as_slice());
    push_all(&mut v, time_before_exec(s.timestamp.as_str(), '+').as_slice());
    push_all(&mut v, lit(" | parents: [").as_slice());
    if s.parents.len() == 0 {
        push_all(&mut v, lit("root").as_slice());
    } else {
        let sep = lit(", ");
        push_all(&mut v, join_with_exec(&s.parents, sep.as_slice()).as_slice());
    }
    push_all(&mut v, lit("] | ").as_slice());
    v.push('"');
    push_all(&mut v, chars_of(s.message.as_str()).as_slice());
    v.push('"');
    proof {
        assert(v@ =~= history_line_text(*s));
    }
    string_of(v.as_slice())
}

/// The paths of a seal's entries.
pub open spec fn entry_paths(files: Seq<FileEntry>) -> Seq<Seq<char>> {
    files.map_values(|f: FileEntry| f.path@)
}

/// The rule printed under each seal of the timeline.
pub open spec fn timeline_rule() -> Seq<char> {
    Seq::new(44, |i: int| '-')
}

/// The lines printed for a seal in the timeline of a stream: a blank line and
/// the id with its timestamp, the parents when there are any, the stream, the
/// message, the paths of the entries, and a rule.
pub open spec fn timeline_entry_lines(s: Seal) -> Seq<Seq<char>> {
    let head = seq!['\n', '['] + s.id@ + "] - "@ + s.timestamp@;
    let tail = seq![
        "  Stream: "@ + s.stream@,
        "  Message: "@ + s.message@,
        "  Tracked Files: "@ + join_with(entry_paths(s.files@), ", "@),
        timeline_rule(),
    ];
    if s.parents@.len() == 0 {
        seq![head] + tail
    } else {
        seq![head, "  Parents: "@ + join_with(strings_view(s.parents@), ", "@)] + tail
    }
}

fn cat(a: &str, b: &str) -> (r: String)
    ensures
        r@ == a@ + b@,
{
    let mut v = chars_of(a);
    push_all(&mut v, chars_of(b).as_slice());
    string_of(v.as_slice())
}

/// The lines printed for seal `s` in the timeline of its stream.
pub fn timeline_entry(s: &Seal) -> (r: Vec<String>)
    ensures
        strings_view(r@) == timeline_entry_lines(*s),
{
    let mut head = vec!['\n', '['];
    push_all(&mut head, chars_of(s.id.as_str()).as_slice());
    push_all(&mut head, lit("] - ").as_slice());
    push_all(&mut head, chars_of(s.timestamp.as_str()).as_slice());
    assert(head@ =~= seq!['\n', '['] + s.id@ + "] - "@ + s.timestamp@);
    let mut r: Vec<String> = Vec::new();
    r.push(string_of(head.as_slice()));
    let sep = lit(", ");
    if s.parents.len() > 0 {
        let ps = join_with_exec(&s.parents, sep.as_slice());
        let mut v = lit("  Parents: ");
        push_all(&mut v, ps.as_slice());
        r.push(string_of(v.as_slice()));
    }
    r.push(cat("  Stream: ", s.stream.as_str()));
    r.push(cat("  Message: ", s.message.as_str()));
    let mut paths: Vec<String> = Vec::new();
    let mut i: usize = 0;
    while i < s.files.len()
        invariant
            i <= s.files@.len(),
            strings_view(paths@) == entry_paths(s.files@).subrange(0, i as int),
        decreases s.files@.len() - i,
    {
        let p = s.files[i].path.clone();
        let ghost before = strings_view(paths@);
        assert(entry_paths(s.files@)[i as int] == s.files@[i as int].path@);
        paths.push(p);
        i += 1;
        proof {
            assert(strings_view(paths@) =~= before.push(p@));
            assert(entry_paths(s.files@).subrange(0, i as int) =~= entry_paths(s.files@).subrange(
                0,
                i - 1,
            ).push(p@));
        }
    }
    proof {
        assert(entry_paths(s.files@).subrange(0, i as int) =~= entry_paths(s.files@));
    }
    let mut f = lit("  Tracked Files: ");
    push_all(&mut f, join_with_exec(&paths, sep.as_slice()).as_slice());
    r.push(string_of(f.as_slice()));
    let mut rule: Vec<char> = Vec::new();
    let mut k: usize = 0;
    while k < 44
        invariant
            k <= 44,
            rule@ == Seq::new(k as nat, |i: int| '-'),
        decreases 44 - k,
    {
        rule.push('-');
        k += 1;
        assert(rule@ =~= Seq::new(k as nat, |i: int| '-'));
    }
    r.push(string_of(rule.as_slice()));
    proof {
        assert(strings_view(r@) =~= timeline_entry_lines(*s));
    }
    r
}

/// The seal read after `s` when a stream's history is walked backward: its
/// first parent, if it has one.
pub fn previous_in_history(s: &Seal) -> (r: Option<String>)
    ensures
        match r {
            Some(p) => s.parents@.len() > 0 && p@ == s.parents@[0]@,
            None => s.parents@.len() == 0,
        },
{
    if s.parents.len() == 0 {
        None
    } else {
        Some(s.parents[0].clone())
    }
}

} // verus!

//! The ancestry of seals: which seals a seal descends from, and the common
//! ancestor of two stream heads.

use vstd::prelude::*;
use std::collections::VecDeque;
use crate::seal::{strings_view, strings_contain};

verus! {

broadcast use vstd::seq_lib::seq_to_set_is_finite;

/// One seal id with the parent ids its record names.
#[derive(Clone, Debug)]
pub struct SealLink {
    pub id: String,
    pub parents: Vec<String>,
}

/// The parent links of the seals that could be read from the store.
/// A seal that could not be read has no link, and so no parents.
#[derive(Clone, Debug)]
pub struct SealGraph {
    pub links: Vec<SealLink>,
}

/// The mathematical value of a graph: each id with its parents, in store order.
pub open spec fn graph_view(g: Seq<SealLink>) -> Seq<(Seq<char>, Seq<Seq<char>>)> {
    g.map_values(|l: SealLink| (l.id@, strings_view(l.parents@)))
}

impl View for SealGraph {
    type V = Seq<(Seq<char>, Seq<Seq<char>>)>;

    open spec fn view(&self) -> Seq<(Seq<char>, Seq<Seq<char>>)> {
        graph_view(self.links@)
    }
}

/// Index of the first link at or after `i` for `id`, or the length.
pub open spec fn link_index(g: Seq<(Seq<char>, Seq<Seq<char>>)>, id: Seq<char>, i: int) -> int
    decreases g.len() - i,
{
    if i < 0 || i >= g.len() {
        g.len() as int
    } else if g[i].0 == id {
        i
    } else {
        link_index(g, id, i + 1)
    }
}

/// The parents of `id`: those of its first link, or none when it has no link.
pub open spec fn parents_of(g: Seq<(Seq<char>, Seq<Seq<char>>)>, id: Seq<char>) -> Seq<Seq<char>> {
    let k = link_index(g, id, 0);
    if 0 <= k < g.len() {
        g[k].1
    } else {
        seq![]
    }
}

/// Whether `w` is a walk from child to parent along the graph.
pub open spec fn is_walk(g: Seq<(Seq<char>, Seq<Seq<char>>)>, w: Seq<Seq<char>>) -> bool {
    &&& w.len() >= 1
    &&& forall|k: int| 0 <= k < w.len() - 1 ==> #[trigger] parents_of(g, w[k]).contains(w[k + 1])
}

/// Whether `y` is `x` or one of its ancestors.
pub open spec fn reaches(g: Seq<(Seq<char>, Seq<Seq<char>>)>, x: Seq<char>, y: Seq<char>) -> bool {
    exists|w: Seq<Seq<char>>| is_walk(g, w) && w[0] == x && w.last() == y
}

/// All parent ids named anywhere in the graph.
pub open spec fn all_parents(g: Seq<(Seq<char>, Seq<Seq<char>>)>) -> Seq<Seq<char>>
    decreases g.len(),
{
    if g.len() == 0 {
        seq![]
    } else {
        all_parents(g.drop_last()) + g.last().1
    }
}

proof fn lemma_link_index(g: Seq<(Seq<char>, Seq<Seq<char>>)>, id: Seq<char>, i: int)
    requires
        0 <= i <= g.len(),
    ensures
        i <= link_index(g, id, i) <= g.len(),
        link_index(g, id, i) < g.len() ==> g[link_index(g, id, i)].0 == id,
    decreases g.len() - i,
{
    if i < g.len() && g[i].0 != id {
        lemma_link_index(g, id, i + 1);
    }
}

proof fn lemma_all_parents_holds(g: Seq<(Seq<char>, Seq<Seq<char>>)>, k: int, p: Seq<char>)
    requires
        0 <= k < g.len(),
        g[k].1.contains(p),
    ensures
        all_parents(g).contains(p),
    decreases g.len(),
{
    let j = choose|j: int| 0 <= j < g[k].1.len() && g[k].1[j] == p;
    if k == g.len() - 1 {
        assert((all_parents(g.drop_last()) + g.last().1)[all_parents(g.drop_last()).len() + j] == p);
    } else {
        lemma_all_parents_holds(g.drop_last(), k, p);
        let i = choose|i: int| 0 <= i < all_parents(g.drop_last()).len() && all_parents(g.drop_last())[i] == p;
        assert((all_parents(g.drop_last()) + g.last().1)[i] == p);
    }
}

/// Every parent of a seal is among the parents named in the graph.
pub proof fn lemma_parents_in_all(g: Seq<(Seq<char>, Seq<Seq<char>>)>, id: Seq<char>, p: Seq<char>)
    requires
        parents_of(g, id).contains(p),
    ensures
        all_parents(g).contains(p),
{
    lemma_link_index(g, id, 0);
    lemma_all_parents_holds(g, link_index(g, id, 0), p);
}

proof fn lemma_reaches_self(g: Seq<(Seq<char>, Seq<Seq<char>>)>, x: Seq<char>)
    ensures
        reaches(g, x, x),
{
    let w = seq![x];
    assert(is_walk(g, w));
    assert(w[0] == x && w.last() == x);
}

proof fn lemma_reaches_step(g: Seq<(Seq<char>, Seq<Seq<char>>)>, x: Seq<char>, v: Seq<char>, p: Seq<char>)
    requires
        reaches(g, x, v),
        parents_of(g, v).contains(p),
    ensures
        reaches(g, x, p),
{
    let w = choose|w: Seq<Seq<char>>| is_walk(g, w) && w[0] == x && w.last() == v;
    let w2 = w.push(p);
    assert forall|k: int| 0 <= k < w2.len() - 1 implies #[trigger] parents_of(g, w2[k]).contains(w2[k + 1]) by {
        if k < w.len() - 1 {
            assert(w2[k] == w[k] && w2[k + 1] == w[k + 1]);
        }
    }
    assert(is_walk(g, w2));
    assert(w2[0] == x && w2.last() == p);
}

proof fn lemma_walk_stays_in(
    g: Seq<(Seq<char>, Seq<Seq<char>>)>,
    s: Seq<Seq<char>>,
    w: Seq<Seq<char>>,
    k: int,
)
    requires
        is_walk(g, w),
        0 <= k < w.len(),
        s.contains(w[0]),
        forall|v: Seq<char>, p: Seq<char>| s.contains(v) && #[trigger] parents_of(g, v).contains(p) ==> s.contains(p),
    ensures
        s.contains(w[k]),
    decreases k,
{
    if k > 0 {
        lemma_walk_stays_in(g, s, w, k - 1);
        assert(parents_of(g, w[k - 1]).contains(w[k - 1 + 1]));
    }
}

/// A set that holds `x` and every parent of each of its members holds every ancestor of `x`.
proof fn lemma_closed_holds_ancestors(
    g: Seq<(Seq<char>, Seq<Seq<char>>)>,
    s: Seq<Seq<char>>,
    x: Seq<char>,
    y: Seq<char>,
)
    requires
        s.contains(x),
        forall|v: Seq<char>, p: Seq<char>| s.contains(v) && #[trigger] parents_of(g, v).contains(p) ==> s.contains(p),
        reaches(g, x, y),
    ensures
        s.contains(y),
{
    let w = choose|w: Seq<Seq<char>>| is_walk(g, w) && w[0] == x && w.last() == y;
    lemma_walk_stays_in(g, s, w, w.len() - 1);
}

/// The ids a walk from `queue` can meet: those on it and every parent named in the graph.
pub open spec fn walk_ids(g: Seq<(Seq<char>, Seq<Seq<char>>)>, queue: Seq<Seq<char>>) -> Set<Seq<char>> {
    queue.to_set().union(all_parents(g).to_set())
}

/// Passing over a visited id at the front leaves the ids still to visit unchanged.
pub proof fn lemma_walk_ids_take_visited(
    g: Seq<(Seq<char>, Seq<Seq<char>>)>,
    queue: Seq<Seq<char>>,
    visited: Set<Seq<char>>,
)
    requires
        queue.len() > 0,
        visited.contains(queue[0]),
    ensures
        walk_ids(g, queue.drop_first()).difference(visited) == walk_ids(g, queue).difference(visited),
{
    let rest = queue.drop_first();
    assert forall|v: Seq<char>| rest.to_set().contains(v) implies queue.to_set().contains(v) by {
        let k = choose|k: int| 0 <= k < rest.len() && rest[k] == v;
        assert(queue[k + 1] == v);
    }
    assert forall|v: Seq<char>| queue.to_set().contains(v) && !visited.contains(v)
        implies rest.to_set().contains(v) by {
        let k = choose|k: int| 0 <= k < queue.len() && queue[k] == v;
        assert(k != 0);
        assert(rest[k - 1] == v);
    }
    assert(walk_ids(g, rest).difference(visited) =~= walk_ids(g, queue).difference(visited));
}

/// Expanding an unvisited id at the front leaves fewer ids to visit.
pub proof fn lemma_walk_ids_take_expand(
    g: Seq<(Seq<char>, Seq<Seq<char>>)>,
    queue: Seq<Seq<char>>,
    visited: Set<Seq<char>>,
)
    requires
        queue.len() > 0,
        !visited.contains(queue[0]),
    ensures
        walk_ids(g, queue.drop_first() + parents_of(g, queue[0])).difference(visited.insert(queue[0])).len()
            < walk_ids(g, queue).difference(visited).len(),
{
    broadcast use vstd::seq_lib::seq_to_set_is_finite;
    let cur = queue[0];
    let rest = queue.drop_first();
    let ps = parents_of(g, cur);
    let u = walk_ids(g, queue);
    let u2 = walk_ids(g, rest + ps);
    assert(u.finite());
    assert(u.contains(cur)) by {
        assert(queue.to_set().contains(cur));
    }
    assert(u2.subset_of(u)) by {
        assert forall|v: Seq<char>| u2.contains(v) implies u.contains(v) by {
            if (rest + ps).to_set().contains(v) {
                let k = choose|k: int| 0 <= k < (rest + ps).len() && (rest + ps)[k] == v;
                if k < rest.len() {
                    assert(queue[k + 1] == v);
                } else {
                    assert(ps[k - rest.len()] == v);
                    assert(ps.contains(v));
                    lemma_parents_in_all(g, cur, v);
                }
            }
        }
    }
    let vi = visited.insert(cur);
    assert(u2.difference(vi).subset_of(u.difference(vi)));
    vstd::set_lib::lemma_len_subset(u2.difference(vi), u.difference(vi));
    u.lemma_set_insert_diff_decreases(visited, cur);
}

/// The first id of `target` that a breadth-first walk meets: ids are taken
/// from the front of `queue`; one in `target` ends the walk, one already
/// `visited` is passed over, and any other is marked visited and its parents
/// queued at the back in order, so that every id at one distance is taken
/// before any id farther away, and a seal's first parent before its second.
pub open spec fn bfs_hit(
    g: Seq<(Seq<char>, Seq<Seq<char>>)>,
    queue: Seq<Seq<char>>,
    visited: Set<Seq<char>>,
    target: Set<Seq<char>>,
) -> Option<Seq<char>>
    decreases walk_ids(g, queue).difference(visited).len(), queue.len(),
{
    if queue.len() == 0 {
        None
    } else {
        let cur = queue[0];
        let rest = queue.drop_first();
        if target.contains(cur) {
            Some(cur)
        } else if visited.contains(cur) {
            proof {
                lemma_walk_ids_take_visited(g, queue, visited);
            }
            bfs_hit(g, rest, visited, target)
        } else {
            proof {
                lemma_walk_ids_take_expand(g, queue, visited);
            }
            bfs_hit(g, rest + parents_of(g, cur), visited.insert(cur), target)
        }
    }
}

/// The ancestors of `x` (itself included).
pub open spec fn ancestors(g: Seq<(Seq<char>, Seq<Seq<char>>)>, x: Seq<char>) -> Set<Seq<char>> {
    Set::new(|v: Seq<char>| reaches(g, x, v))
}

/// The parents of `id` in the graph.
pub fn parents_exec(g: &SealGraph, id: &String) -> (r: Vec<String>)
    ensures
        strings_view(r@) == parents_of(g@, id@),
{
    let ghost gv = g@;
    let mut i: usize = 0;
    while i < g.links.len()
        invariant
            gv == g@,
            gv.len() == g.links@.len(),
            0 <= i <= g.links@.len(),
            link_index(gv, id@, i as int) == link_index(gv, id@, 0),
        decreases g.links@.len() - i,
    {
        if g.links[i].id == *id {
            assert(gv[i as int].0 == id@);
            return crate::seal::duplicate_strings(&g.links[i].parents);
        }
        assert(gv[i as int].0 != id@);
        i += 1;
    }
    let r: Vec<String> = Vec::new();
    assert(strings_view(r@) =~= Seq::<Seq<char>>::empty());
    r
}

/// The set of ids a walk from `start` can meet.
pub open spec fn universe(g: Seq<(Seq<char>, Seq<Seq<char>>)>, start: Seq<char>) -> Set<Seq<char>> {
    (seq![start] + all_parents(g)).to_set()
}

/// Breadth-first walk from `start` towards the roots, each seal expanded once;
/// seals are taken from the front of a queue and their parents queued at the
/// back in order.
/// With `stopping`, the walk stops at the first seal taken that `stop` holds.
/// Returns the seals expanded and the seal it stopped at.
pub fn walk_ancestry(g: &SealGraph, start: &String, stop: &Vec<String>, stopping: bool) -> (r: (
    Vec<String>,
    Option<String>,
))
    ensures
        forall|v: Seq<char>| #[trigger] strings_view(r.0@).contains(v) ==> reaches(g@, start@, v),
        r.1 matches Some(c) ==> stopping && strings_view(stop@).contains(c@) && reaches(g@, start@, c@),
        r.1 is None ==> forall|v: Seq<char>|
            #[trigger] reaches(g@, start@, v) ==> strings_view(r.0@).contains(v),
        r.1 is None && stopping ==> forall|v: Seq<char>|
            #[trigger] reaches(g@, start@, v) ==> !strings_view(stop@).contains(v),
        stopping && strings_view(stop@).contains(start@) ==> r.1 is Some && r.1->0@ == start@,
        stopping ==> match r.1 {
            Some(c) => bfs_hit(g@, seq![start@], Set::empty(), strings_view(stop@).to_set()) == Some(c@),
            None => bfs_hit(g@, seq![start@], Set::empty(), strings_view(stop@).to_set()) is None,
        },
{
    let ghost gv = g@;
    let ghost uni = universe(gv, start@);
    let ghost sv = strings_view(stop@);
    let ghost tgt = if stopping { sv.to_set() } else { Set::<Seq<char>>::empty() };
    let ghost want = bfs_hit(gv, seq![start@], Set::empty(), tgt);
    let mut visited: Vec<String> = Vec::new();
    let mut queue: VecDeque<String> = VecDeque::new();
    queue.push_back(start.clone());
    proof {
        lemma_reaches_self(gv, start@);
        assert(strings_view(queue@) =~= seq![start@]);
        assert(strings_view(queue@)[0] == start@);
        assert(strings_view(visited@) =~= Seq::<Seq<char>>::empty());
        assert(strings_view(visited@).to_set() =~= Set::<Seq<char>>::empty());
        assert((seq![start@] + all_parents(gv)).contains(start@)) by {
            assert((seq![start@] + all_parents(gv))[0] == start@);
        }
    }
    loop
        invariant
            gv == g@,
            sv == strings_view(stop@),
            uni == universe(gv, start@),
            uni.finite(),
            forall|v: Seq<char>| #[trigger] strings_view(visited@).contains(v) ==> reaches(gv, start@, v) && uni.contains(v),
            forall|v: Seq<char>| #[trigger] strings_view(queue@).contains(v) ==> reaches(gv, start@, v) && uni.contains(v),
            strings_view(visited@).contains(start@) || strings_view(queue@).contains(start@),
            forall|v: Seq<char>, p: Seq<char>|
                strings_view(visited@).contains(v) && #[trigger] parents_of(gv, v).contains(p)
                    ==> strings_view(visited@).contains(p) || strings_view(queue@).contains(p),
            stopping ==> forall|v: Seq<char>| #[trigger] strings_view(visited@).contains(v) ==> !sv.contains(v),
            stopping && sv.contains(start@) ==> visited@.len() == 0 && strings_view(queue@) == seq![start@],
            tgt == if stopping { sv.to_set() } else { Set::<Seq<char>>::empty() },
            want == bfs_hit(gv, seq![start@], Set::empty(), tgt),
            bfs_hit(gv, strings_view(queue@), strings_view(visited@).to_set(), tgt) == want,
        decreases uni.difference(strings_view(visited@).to_set()).len(), queue@.len(),
    {
        let ghost qbefore = strings_view(queue@);
        let ghost vbefore = strings_view(visited@);
        match queue.pop_front() {
            None => {
                proof {
                    assert(strings_view(queue@) =~= qbefore);
                    assert(qbefore.len() == 0);
                    assert forall|v: Seq<char>| #[trigger] reaches(gv, start@, v) implies vbefore.contains(v) by {
                        lemma_closed_holds_ancestors(gv, vbefore, start@, v);
                    }
                }
                return (visited, None);
            },
            Some(cur) => {
                proof {
                    assert(qbefore[0] == cur@);
                    assert(qbefore.contains(cur@));
                    assert(qbefore.drop_first() =~= strings_view(queue@));
                }
                if stopping && strings_contain(stop, &cur) {
                    proof {
                        assert(sv.to_set().contains(cur@));
                    }
                    return (visited, Some(cur));
                }
                proof {
                    if stopping {
                        assert(!sv.to_set().contains(cur@));
                    }
                    assert(!tgt.contains(cur@));
                }
                if !strings_contain(&visited, &cur) {
                    proof {
                        assert(!vbefore.to_set().contains(cur@));
                    }
                    let parents = parents_exec(g, &cur);
                    let ghost pv = strings_view(parents@);
                    visited.push(cur);
                    proof {
                        assert(strings_view(visited@) =~= vbefore.push(cur@));
                        vbefore.lemma_push_to_set_commute(cur@);
                        assert(strings_view(visited@).to_set() == vbefore.to_set().insert(cur@));
                        uni.lemma_set_insert_diff_decreases(vbefore.to_set(), cur@);
                    }
                    proof {
                        assert(strings_view(queue@) =~= qbefore.drop_first() + pv.subrange(0, 0));
                        assert forall|v: Seq<char>| #[trigger] strings_view(queue@).contains(v)
                            implies reaches(gv, start@, v) && uni.contains(v) by {
                            let k = choose|k: int| 0 <= k < strings_view(queue@).len() && strings_view(queue@)[k] == v;
                            assert(qbefore[k + 1] == v);
                            assert(qbefore.contains(v));
                        }
                    }
                    let mut j: usize = 0;
                    while j < parents.len()
                        invariant
                            gv == g@,
                            uni == universe(gv, start@),
                            pv == strings_view(parents@),
                            pv == parents_of(gv, cur@),
                            reaches(gv, start@, cur@),
                            0 <= j <= parents@.len(),
                            strings_view(queue@) == qbefore.drop_first() + pv.subrange(0, j as int),
                            forall|v: Seq<char>| #[trigger] strings_view(queue@).contains(v) ==> reaches(gv, start@, v) && uni.contains(v),
                        decreases parents@.len() - j,
                    {
                        let ghost qb = strings_view(queue@);
                        let p = parents[j].clone();
                        proof {
                            assert(pv.contains(pv[j as int]));
                            lemma_reaches_step(gv, start@, cur@, p@);
                            lemma_parents_in_all(gv, cur@, p@);
                            let ap = all_parents(gv);
                            let k = choose|k: int| 0 <= k < ap.len() && ap[k] == p@;
                            assert((seq![start@] + ap)[k + 1] == p@);
                            assert((seq![start@] + ap).contains(p@));
                        }
                        let ghost pnew = p@;
                        queue.push_back(p);
                        j += 1;
                        proof {
                            assert forall|v: Seq<char>| #[trigger] strings_view(queue@).contains(v)
                                implies reaches(gv, start@, v) && uni.contains(v) by {
                                let k = choose|k: int| 0 <= k < strings_view(queue@).len() && strings_view(queue@)[k] == v;
                                if k < qb.len() {
                                    assert(qb[k] == v);
                                    assert(qb.contains(v));
                                } else {
                                    assert(v == pnew);
                                }
                            }
                            assert(strings_view(queue@) =~= qb.push(pv[j - 1]));
                            assert(pv.subrange(0, j as int) =~= pv.subrange(0, j - 1).push(pv[j - 1]));
                        }
                    }
                    proof {
                        assert(pv.subrange(0, j as int) =~= pv);
                        assert(strings_view(queue@) == qbefore.drop_first() + parents_of(gv, cur@));
                        assert(bfs_hit(gv, strings_view(queue@), strings_view(visited@).to_set(), tgt) == want);
                        assert forall|v: Seq<char>, p: Seq<char>|
                            strings_view(visited@).contains(v) && #[trigger] parents_of(gv, v).contains(p)
                            implies strings_view(visited@).contains(p) || strings_view(queue@).contains(p) by {
                            if v == cur@ {
                                let k = choose|k: int| 0 <= k < pv.len() && pv[k] == p;
                                assert(strings_view(queue@)[qbefore.len() - 1 + k] == p);
                            } else {
                                assert(vbefore.contains(v));
                                if qbefore.contains(p) && !vbefore.contains(p) {
                                    let k = choose|k: int| 0 <= k < qbefore.len() && qbefore[k] == p;
                                    if k == 0 {
                                        assert(strings_view(visited@)[vbefore.len() as int] == p);
                                    } else {
                                        assert(strings_view(queue@)[k - 1] == p);
                                    }
                                }
                                if vbefore.contains(p) {
                                    let k = choose|k: int| 0 <= k < vbefore.len() && vbefore[k] == p;
                                    assert(strings_view(visited@)[k] == p);
                                }
                            }
                        }
                        assert forall|v: Seq<char>| #[trigger] strings_view(visited@).contains(v)
                            implies reaches(gv, start@, v) && uni.contains(v) by {
                            if v != cur@ {
                                assert(vbefore.contains(v));
                            }
                        }
                        if vbefore.contains(start@) {
                            let k = choose|k: int| 0 <= k < vbefore.len() && vbefore[k] == start@;
                            assert(strings_view(visited@)[k] == start@);
                        } else if cur@ == start@ {
                            assert(strings_view(visited@)[vbefore.len() as int] == start@);
                        } else {
                            let k = choose|k: int| 0 <= k < qbefore.len() && qbefore[k] == start@;
                            assert(k != 0);
                            assert(strings_view(queue@)[k - 1] == start@);
                        }
                        if stopping {
                            assert forall|v: Seq<char>| #[trigger] strings_view(visited@).contains(v) implies !sv.contains(v) by {
                                if v != cur@ {
                                    assert(vbefore.contains(v));
                                }
                            }
                        }
                    }
                } else {
                    proof {
                        assert(vbefore.to_set().contains(cur@));
                        assert(bfs_hit(gv, strings_view(queue@), strings_view(visited@).to_set(), tgt) == want);
                        assert forall|v: Seq<char>, p: Seq<char>|
                            strings_view(visited@).contains(v) && #[trigger] parents_of(gv, v).contains(p)
                            implies strings_view(visited@).contains(p) || strings_view(queue@).contains(p) by {
                            if qbefore.contains(p) && !vbefore.contains(p) {
                                let k = choose|k: int| 0 <= k < qbefore.len() && qbefore[k] == p;
                                assert(k != 0);
                                assert(strings_view(queue@)[k - 1] == p);
                            }
                        }
                        if !strings_view(visited@).contains(start@) {
                            let k = choose|k: int| 0 <= k < qbefore.len() && qbefore[k] == start@;
                            assert(k != 0);
                            assert(strings_view(queue@)[k - 1] == start@);
                        }
                        assert forall|v: Seq<char>| #[trigger] strings_view(queue@).contains(v)
                            implies reaches(gv, start@, v) && uni.contains(v) by {
                            let k = choose|k: int| 0 <= k < strings_view(queue@).len() && strings_view(queue@)[k] == v;
                            assert(qbefore[k + 1] == v);
                            assert(qbefore.contains(v));
                        }
                    }
                }
            },
        }
    }
}

/// Whether `x` and `y` share an ancestor (each counting as its own ancestor).
pub open spec fn have_common_ancestor(g: Seq<(Seq<char>, Seq<Seq<char>>)>, x: Seq<char>, y: Seq<char>) -> bool {
    exists|c: Seq<char>| reaches(g, x, c) && reaches(g, y, c)
}

/// The merge base of two seals: first every ancestor of `a` is collected, then
/// the ancestry of `b` is searched breadth first (nearer seals before farther
/// ones, a seal's parents in the order its record names them) until a seal of
/// `a`'s lineage is met.
pub fn find_common_ancestor(a: &str, b: &str, graph: &SealGraph) -> (r: Option<String>)
    ensures
        match r {
            Some(c) => bfs_hit(graph@, seq![b@], Set::empty(), ancestors(graph@, a@)) == Some(c@),
            None => bfs_hit(graph@, seq![b@], Set::empty(), ancestors(graph@, a@)) is None,
        },
        r matches Some(c) ==> reaches(graph@, a@, c@) && reaches(graph@, b@, c@),
        r is None <==> !have_common_ancestor(graph@, a@, b@),
        reaches(graph@, a@, b@) ==> r is Some && r->0@ == b@,
{
    let a_s = crate::text::string_of(crate::text::chars_of(a).as_slice());
    let b_s = crate::text::string_of(crate::text::chars_of(b).as_slice());
    let none: Vec<String> = Vec::new();
    let (lineage, _) = walk_ancestry(graph, &a_s, &none, false);
    let (_, found) = walk_ancestry(graph, &b_s, &lineage, true);
    proof {
        assert(strings_view(lineage@).to_set() =~= ancestors(graph@, a@));
        if found is None {
            if have_common_ancestor(graph@, a@, b@) {
                let c = choose|c: Seq<char>| reaches(graph@, a@, c) && reaches(graph@, b@, c);
                assert(strings_view(lineage@).contains(c));
            }
        } else {
            let c = found->0@;
            assert(reaches(graph@, a@, c) && reaches(graph@, b@, c));
        }
        if reaches(graph@, a@, b@) {
            assert(strings_view(lineage@).contains(b@));
        }
    }
    found
}

} // verus!

//! The staging area: the sorted, duplicate-free list of collected paths.

use vstd::prelude::*;
use crate::seal::strings_view;
use crate::text::chars_of;

verus! {

/// Lexicographic order on character sequences, by code point; for UTF-8
/// strings it is the byte order `String` sorts by.
pub open spec fn lex_lt(a: Seq<char>, b: Seq<char>) -> bool
    decreases a.len(),
{
    if b.len() == 0 {
        false
    } else if a.len() == 0 {
        true
    } else if a[0] < b[0] {
        true
    } else if a[0] == b[0] {
        lex_lt(a.drop_first(), b.drop_first())
    } else {
        false
    }
}

/// No text sorts before itself.
pub proof fn lemma_lex_irreflexive(a: Seq<char>)
    ensures
        !lex_lt(a, a),
    decreases a.len(),
{
    if a.len() > 0 {
        lemma_lex_irreflexive(a.drop_first());
    }
}

/// Of two different texts, exactly one sorts before the other.
pub proof fn lemma_lex_trichotomy(a: Seq<char>, b: Seq<char>)
    ensures
        a != b ==> lex_lt(a, b) || lex_lt(b, a),
        !(lex_lt(a, b) && lex_lt(b, a)),
    decreases a.len(),
{
    if a.len() > 0 && b.len() > 0 {
        lemma_lex_trichotomy(a.drop_first(), b.drop_first());
        if a[0] == b[0] && a != b {
            assert(a.drop_first() != b.drop_first()) by {
                if a.drop_first() == b.drop_first() {
                    assert(a =~= seq![a[0]] + a.drop_first());
                    assert(b =~= seq![b[0]] + b.drop_first());
                }
            }
        }
    } else if a.len() == 0 && b.len() == 0 {
        assert(a =~= b);
    }
}

/// Sorting before is transitive.
pub proof fn lemma_lex_transitive(a: Seq<char>, b: Seq<char>, c: Seq<char>)
    requires
        lex_lt(a, b),
        lex_lt(b, c),
    ensures
        lex_lt(a, c),
    decreases a.len(),
{
    if a.len() > 0 && b.len() > 0 && c.len() > 0 && a[0] == b[0] && b[0] == c[0] {
        lemma_lex_transitive(a.drop_first(), b.drop_first(), c.drop_first());
    }
}

/// Whether `a` sorts strictly before `b`.
pub fn lex_less(a: &str, b: &str) -> (r: bool)
    ensures
        r == lex_lt(a@, b@),
{
    let x = chars_of(a);
    let y = chars_of(b);
    let mut i: usize = 0;
    assert(x@.subrange(0, x@.len() as int) =~= x@);
    assert(y@.subrange(0, y@.len() as int) =~= y@);
    loop
        invariant
            x@ == a@,
            y@ == b@,
            0 <= i <= x@.len(),
            i <= y@.len(),
            lex_lt(a@, b@) == lex_lt(
                x@.subrange(i as int, x@.len() as int),
                y@.subrange(i as int, y@.len() as int),
            ),
        decreases x@.len() - i,
    {
        let ghost xs = x@.subrange(i as int, x@.len() as int);
        let ghost ys = y@.subrange(i as int, y@.len() as int);
        if i == y.len() {
            return false;
        }
        if i == x.len() {
            return true;
        }
        assert(xs[0] == x@[i as int] && ys[0] == y@[i as int]);
        if x[i] < y[i] {
            return true;
        }
        if x[i] != y[i] {
            return false;
        }
        assert(xs.drop_first() =~= x@.subrange(i + 1, x@.len() as int));
        assert(ys.drop_first() =~= y@.subrange(i + 1, y@.len() as int));
        i += 1;
    }
}

/// Whether a list is strictly increasing, hence sorted with no duplicates.
pub open spec fn strictly_sorted(s: Seq<Seq<char>>) -> bool {
    forall|i: int, j: int| 0 <= i < j < s.len() ==> lex_lt(#[trigger] s[i], #[trigger] s[j])
}

/// Adds `x` to a strictly sorted list, where it belongs, unless it is there already.
fn insert_sorted(v: &mut Vec<String>, x: String)
    requires
        strictly_sorted(strings_view(old(v)@)),
    ensures
        strictly_sorted(strings_view(final(v)@)),
        strings_view(final(v)@).to_set() == strings_view(old(v)@).to_set().insert(x@),
{
    let ghost sv = strings_view(v@);
    let mut j: usize = 0;
    while j < v.len() && lex_less(v[j].as_str(), x.as_str())
        invariant
            sv == strings_view(v@),
            0 <= j <= v@.len(),
            forall|k: int| 0 <= k < j ==> lex_lt(#[trigger] sv[k], x@),
        decreases v@.len() - j,
    {
        j += 1;
    }
    if j < v.len() && v[j] == x {
        proof {
            assert(sv[j as int] == x@);
            assert(sv.to_set().contains(x@));
            assert(sv.to_set().insert(x@) =~= sv.to_set());
        }
        return;
    }
    proof {
        if j < sv.len() {
            lemma_lex_trichotomy(sv[j as int], x@);
        }
    }
    v.insert(j, x);
    proof {
        let nv = strings_view(v@);
        assert(nv =~= sv.insert(j as int, x@));
        assert forall|a: int, b: int| 0 <= a < b < nv.len() implies lex_lt(#[trigger] nv[a], #[trigger] nv[b]) by {
            if b < j {
            } else if b == j {
            } else if a < j {
                assert(lex_lt(sv[a], x@));
                assert(lex_lt(x@, sv[j as int]));
                if b - 1 > j {
                    lemma_lex_transitive(x@, sv[j as int], sv[b - 1]);
                }
                lemma_lex_transitive(sv[a], x@, sv[b - 1]);
            } else if a == j {
                if b - 1 > j {
                    lemma_lex_transitive(x@, sv[j as int], sv[b - 1]);
                }
            } else {
                assert(lex_lt(sv[a - 1], sv[b - 1]));
            }
        }
        assert(nv.to_set() =~= sv.to_set().insert(x@)) by {
            assert forall|e: Seq<char>| nv.to_set().contains(e) implies sv.to_set().insert(x@).contains(e) by {
                let k = choose|k: int| 0 <= k < nv.len() && nv[k] == e;
                if k < j {
                    assert(sv[k] == e);
                } else if k > j {
                    assert(sv[k - 1] == e);
                }
            }
            assert forall|e: Seq<char>| sv.to_set().insert(x@).contains(e) implies nv.to_set().contains(e) by {
                if e == x@ {
                    assert(nv[j as int] == e);
                } else {
                    let k = choose|k: int| 0 <= k < sv.len() && sv[k] == e;
                    if k < j {
                        assert(nv[k] == e);
                    } else {
                        assert(nv[k + 1] == e);
                    }
                }
            }
        }
    }
}

/// The staged paths after adding newly collected items: every path of both
/// lists, once each, in sorted order.
pub fn merge_into_staging(staged: Vec<String>, items: Vec<String>) -> (r: Vec<String>)
    ensures
        strictly_sorted(strings_view(r@)),
        strings_view(r@).to_set() == strings_view(staged@).to_set().union(strings_view(items@).to_set()),
{
    let mut out: Vec<String> = Vec::new();
    let ghost all = strings_view(staged@) + strings_view(items@);
    let mut i: usize = 0;
    assert(strings_view(out@).to_set() =~= all.subrange(0, 0).to_set());
    while i < staged.len()
        invariant
            all == strings_view(staged@) + strings_view(items@),
            0 <= i <= staged@.len(),
            strictly_sorted(strings_view(out@)),
            strings_view(out@).to_set() == all.subrange(0, i as int).to_set(),
        decreases staged@.len() - i,
    {
        let ghost before = strings_view(out@);
        insert_sorted(&mut out, staged[i].clone());
        proof {
            assert(all.subrange(0, i + 1) =~= all.subrange(0, i as int).push(staged@[i as int]@));
            all.subrange(0, i as int).lemma_push_to_set_commute(staged@[i as int]@);
        }
        i += 1;
    }
    let n = staged.len();
    let mut k: usize = 0;
    while k < items.len()
        invariant
            all == strings_view(staged@) + strings_view(items@),
            n == staged@.len(),
            0 <= k <= items@.len(),
            strictly_sorted(strings_view(out@)),
            strings_view(out@).to_set() == all.subrange(0, n + k).to_set(),
        decreases items@.len() - k,
    {
        insert_sorted(&mut out, items[k].clone());
        proof {
            assert(all.subrange(0, n + k + 1) =~= all.subrange(0, n + k).push(items@[k as int]@));
            all.subrange(0, n + k).lemma_push_to_set_commute(items@[k as int]@);
        }
        k += 1;
    }
    proof {
        assert(all.subrange(0, n + k) =~= all);
        assert(all.to_set() =~= strings_view(staged@).to_set().union(strings_view(items@).to_set())) by {
            assert forall|e: Seq<char>| all.to_set().contains(e) implies strings_view(staged@).to_set().union(strings_view(items@).to_set()).contains(e) by {
                let j = choose|j: int| 0 <= j < all.len() && all[j] == e;
                if j < n {
                    assert(strings_view(staged@)[j] == e);
                } else {
                    assert(strings_view(items@)[j - n] == e);
                }
            }
            assert forall|e: Seq<char>| strings_view(staged@).to_set().union(strings_view(items@).to_set()).contains(e) implies all.to_set().contains(e) by {
                if strings_view(staged@).contains(e) {
                    let j = choose|j: int| 0 <= j < n && strings_view(staged@)[j] == e;
                    assert(all[j] == e);
                } else {
                    let j = choose|j: int| 0 <= j < strings_view(items@).len() && strings_view(items@)[j] == e;
                    assert(all[n + j] == e);
                }
            }
        }
    }
    out
}

} // verus!

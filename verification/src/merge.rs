//! Three-way merging of two streams against their common ancestor seal.

use vstd::prelude::*;
use crate::seal::{
    FileEntry, FileEntryView, entries_view, strings_view, duplicate_entries, strings_contain,
};
use crate::text::{chars_of, lit, push_all, string_of};

verus! {

/// A merge that has been computed but not yet applied.
#[derive(Clone, Debug)]
pub struct PendingMerge {
    pub source_stream: String,
    pub target_stream: String,
    pub base_seal: Option<String>,
    pub source_seal: String,
    pub target_seal: String,
    pub files: Vec<FileEntry>,
    pub conflicts: Vec<String>,
}

/// Index of the first entry at or after `i` with the given path, or the length.
pub open spec fn entry_index(files: Seq<FileEntryView>, path: Seq<char>, i: int) -> int
    decreases files.len() - i,
{
    if i < 0 || i >= files.len() {
        files.len() as int
    } else if files[i].path == path {
        i
    } else {
        entry_index(files, path, i + 1)
    }
}

/// The first entry with the given path, as `iter().find(|f| f.path == path)` returns it.
pub open spec fn find_entry(files: Seq<FileEntryView>, path: Seq<char>) -> Option<FileEntryView> {
    let k = entry_index(files, path, 0);
    if 0 <= k < files.len() {
        Some(files[k])
    } else {
        None
    }
}

/// Bounds of `entry_index`, and the path of the entry it finds.
pub proof fn lemma_entry_index(files: Seq<FileEntryView>, path: Seq<char>, i: int)
    requires
        0 <= i <= files.len(),
    ensures
        i <= entry_index(files, path, i) <= files.len(),
        entry_index(files, path, i) < files.len() ==> files[entry_index(files, path, i)].path
            == path,
        forall|k: int| i <= k < entry_index(files, path, i) ==> #[trigger] files[k].path != path,
    decreases files.len() - i,
{
    if i < files.len() && files[i].path != path {
        lemma_entry_index(files, path, i + 1);
    }
}

/// The entry `find_entry` returns is one of the list with that path.
pub proof fn lemma_find_entry(files: Seq<FileEntryView>, path: Seq<char>)
    ensures
        find_entry(files, path) matches Some(e) ==> e.path == path,
        find_entry(files, path) is None <==> forall|k: int|
            0 <= k < files.len() ==> #[trigger] files[k].path != path,
{
    lemma_entry_index(files, path, 0);
}

/// How one path is resolved from its base, active and source versions:
/// the entry to keep (if any) and whether the path is a conflict.
pub open spec fn resolve_path(
    b: Option<FileEntryView>,
    a: Option<FileEntryView>,
    s: Option<FileEntryView>,
) -> (Option<FileEntryView>, bool) {
    match (b, a, s) {
        (Some(b), Some(a), Some(s)) => {
            if a.hash == b.hash && s.hash != b.hash {
                (Some(s), false)
            } else if s.hash == b.hash && a.hash != b.hash {
                (Some(a), false)
            } else if a.hash != b.hash && s.hash != b.hash {
                (Some(a), a.hash != s.hash)
            } else {
                (Some(a), false)
            }
        },
        (Some(b), Some(a), None) => {
            if a.hash == b.hash {
                (None, false)
            } else {
                (Some(a), false)
            }
        },
        (Some(_), None, _) => (None, false),
        (None, Some(a), Some(s)) => (Some(a), a.hash != s.hash),
        (None, None, Some(s)) => (Some(s), false),
        (None, Some(a), None) => (Some(a), false),
        (None, None, None) => (None, false),
    }
}

/// Appends to `acc` the elements of `xs` that it does not hold yet, in order.
pub open spec fn add_new(acc: Seq<Seq<char>>, xs: Seq<Seq<char>>) -> Seq<Seq<char>>
    decreases xs.len(),
{
    if xs.len() == 0 {
        acc
    } else {
        let prev = add_new(acc, xs.drop_last());
        if prev.contains(xs.last()) {
            prev
        } else {
            prev.push(xs.last())
        }
    }
}

/// The paths of a list of entries.
pub open spec fn paths_of(files: Seq<FileEntryView>) -> Seq<Seq<char>> {
    files.map_values(|e: FileEntryView| e.path)
}

/// Every path of the three file lists, once each, in order of first appearance.
pub open spec fn all_paths(
    base: Seq<FileEntryView>,
    active: Seq<FileEntryView>,
    source: Seq<FileEntryView>,
) -> Seq<Seq<char>> {
    add_new(add_new(add_new(seq![], paths_of(base)), paths_of(active)), paths_of(source))
}

/// The resolution of one path against the three lists.
pub open spec fn resolve_in(
    base: Seq<FileEntryView>,
    active: Seq<FileEntryView>,
    source: Seq<FileEntryView>,
    p: Seq<char>,
) -> (Option<FileEntryView>, bool) {
    resolve_path(find_entry(base, p), find_entry(active, p), find_entry(source, p))
}

/// The kept entries for the paths `ps`, in order.
pub open spec fn merged_files(
    ps: Seq<Seq<char>>,
    base: Seq<FileEntryView>,
    active: Seq<FileEntryView>,
    source: Seq<FileEntryView>,
) -> Seq<FileEntryView>
    decreases ps.len(),
{
    if ps.len() == 0 {
        seq![]
    } else {
        let prev = merged_files(ps.drop_last(), base, active, source);
        match resolve_in(base, active, source, ps.last()).0 {
            Some(e) => prev.push(e),
            None => prev,
        }
    }
}

/// The conflicting paths among `ps`, in order.
pub open spec fn merge_conflicts(
    ps: Seq<Seq<char>>,
    base: Seq<FileEntryView>,
    active: Seq<FileEntryView>,
    source: Seq<FileEntryView>,
) -> Seq<Seq<char>>
    decreases ps.len(),
{
    if ps.len() == 0 {
        seq![]
    } else {
        let prev = merge_conflicts(ps.drop_last(), base, active, source);
        if resolve_in(base, active, source, ps.last()).1 {
            prev.push(ps.last())
        } else {
            prev
        }
    }
}

/// The first entry of `files` with the path `p`.
pub fn find_entry_exec<'a>(files: &'a Vec<FileEntry>, p: &String) -> (r: Option<&'a FileEntry>)
    ensures
        match r {
            Some(e) => find_entry(entries_view(files@), p@) == Some(e@),
            None => find_entry(entries_view(files@), p@) is None,
        },
{
    let ghost fv = entries_view(files@);
    let mut i: usize = 0;
    while i < files.len()
        invariant
            fv == entries_view(files@),
            0 <= i <= files@.len(),
            entry_index(fv, p@, i as int) == entry_index(fv, p@, 0),
        decreases files@.len() - i,
    {
        if files[i].path == *p {
            assert(fv[i as int].path == p@);
            return Some(&files[i]);
        }
        assert(fv[i as int].path != p@);
        i += 1;
    }
    None
}

/// `acc` extended with the paths of `files` that it does not hold yet.
fn add_new_paths(acc: &mut Vec<String>, files: &Vec<FileEntry>)
    ensures
        strings_view(final(acc)@) == add_new(strings_view(old(acc)@), paths_of(entries_view(files@))),
{
    let ghost start = strings_view(acc@);
    let ghost ps = paths_of(entries_view(files@));
    let mut i: usize = 0;
    assert(ps.subrange(0, 0) =~= Seq::<Seq<char>>::empty());
    while i < files.len()
        invariant
            ps == paths_of(entries_view(files@)),
            0 <= i <= files@.len(),
            strings_view(acc@) == add_new(start, ps.subrange(0, i as int)),
        decreases files@.len() - i,
    {
        let p = &files[i].path;
        assert(ps.subrange(0, i + 1).drop_last() =~= ps.subrange(0, i as int));
        assert(ps.subrange(0, i + 1).last() == p@);
        if !strings_contain(acc, p) {
            let ghost before = strings_view(acc@);
            acc.push(p.clone());
            assert(strings_view(acc@) =~= before.push(p@));
        }
        i += 1;
    }
    assert(ps.subrange(0, i as int) =~= ps);
}

/// Resolves every path of the base, active and source file lists.
///
/// Each path is resolved from its first entry in each list: a side that left
/// the base version untouched yields to the other side's change or deletion;
/// changes on both sides agree when the hashes match and otherwise conflict,
/// the active version being kept; new paths come from whichever side has them.
/// Returns the kept entries and the conflicting paths, both in order of the
/// paths' first appearance in base, active, then source.
pub fn three_way_merge(
    base: &Vec<FileEntry>,
    active: &Vec<FileEntry>,
    source: &Vec<FileEntry>,
) -> (r: (Vec<FileEntry>, Vec<String>))
    ensures
        ({
            let (b, a, s) = (entries_view(base@), entries_view(active@), entries_view(source@));
            &&& entries_view(r.0@) == merged_files(all_paths(b, a, s), b, a, s)
            &&& strings_view(r.1@) == merge_conflicts(all_paths(b, a, s), b, a, s)
        }),
{
    let ghost b = entries_view(base@);
    let ghost a = entries_view(active@);
    let ghost s = entries_view(source@);
    let mut paths: Vec<String> = Vec::new();
    assert(strings_view(paths@) =~= Seq::<Seq<char>>::empty());
    add_new_paths(&mut paths, base);
    add_new_paths(&mut paths, active);
    add_new_paths(&mut paths, source);
    let ghost ps = strings_view(paths@);
    assert(ps =~= all_paths(b, a, s));

    let mut files: Vec<FileEntry> = Vec::new();
    let mut conflicts: Vec<String> = Vec::new();
    let mut i: usize = 0;
    assert(ps.subrange(0, 0) =~= Seq::<Seq<char>>::empty());
    while i < paths.len()
        invariant
            ps == strings_view(paths@),
            b == entries_view(base@),
            a == entries_view(active@),
            s == entries_view(source@),
            0 <= i <= paths@.len(),
            entries_view(files@) == merged_files(ps.subrange(0, i as int), b, a, s),
            strings_view(conflicts@) == merge_conflicts(ps.subrange(0, i as int), b, a, s),
        decreases paths@.len() - i,
    {
        let p = &paths[i];
        assert(ps.subrange(0, i + 1).drop_last() =~= ps.subrange(0, i as int));
        assert(ps.subrange(0, i + 1).last() == p@);
        let bf = find_entry_exec(base, p);
        let af = find_entry_exec(active, p);
        let sf = find_entry_exec(source, p);
        let ghost res = resolve_path(find_entry(b, p@), find_entry(a, p@), find_entry(s, p@));
        let ghost fbefore = entries_view(files@);
        let ghost cbefore = strings_view(conflicts@);
        let (keep, conflict): (Option<&FileEntry>, bool) = match (bf, af, sf) {
            (Some(be), Some(ae), Some(se)) => {
                if ae.hash == be.hash && se.hash != be.hash {
                    (Some(se), false)
                } else if se.hash == be.hash && ae.hash != be.hash {
                    (Some(ae), false)
                } else if ae.hash != be.hash && se.hash != be.hash {
                    (Some(ae), ae.hash != se.hash)
                } else {
                    (Some(ae), false)
                }
            },
            (Some(be), Some(ae), None) => {
                if ae.hash == be.hash {
                    (None, false)
                } else {
                    (Some(ae), false)
                }
            },
            (Some(_), None, _) => (None, false),
            (None, Some(ae), Some(se)) => (Some(ae), ae.hash != se.hash),
            (None, None, Some(se)) => (Some(se), false),
            (None, Some(ae), None) => (Some(ae), false),
            (None, None, None) => (None, false),
        };
        assert(conflict == res.1);
        assert(match keep {
            Some(e) => res.0 == Some(e@),
            None => res.0 is None,
        });
        if conflict {
            conflicts.push(p.clone());
            assert(strings_view(conflicts@) =~= cbefore.push(p@));
        }
        match keep {
            Some(e) => {
                files.push(e.duplicate());
                assert(entries_view(files@) =~= fbefore.push(e@));
            },
            None => {},
        }
        i += 1;
    }
    assert(ps.subrange(0, i as int) =~= ps);
    (files, conflicts)
}

/// Keeping, for each path of `ps` in order, the first entry of `files` with that path.
pub open spec fn kept_from(ps: Seq<Seq<char>>, files: Seq<FileEntryView>) -> Seq<FileEntryView>
    decreases ps.len(),
{
    if ps.len() == 0 {
        seq![]
    } else {
        let prev = kept_from(ps.drop_last(), files);
        match find_entry(files, ps.last()) {
            Some(e) => prev.push(e),
            None => prev,
        }
    }
}

/// When both streams hold the same version of a path, that version is kept and
/// the path is no conflict, whatever the base holds.
pub proof fn law_identical_sides_agree(
    b: Option<FileEntryView>,
    x: Option<FileEntryView>,
)
    ensures
        resolve_path(b, x, x) == (x, false),
{
}

/// When the source stream left a path as it was in the base, the active
/// stream's version (or deletion) is kept and the path is no conflict.
pub proof fn law_unchanged_source_keeps_active(
    x: Option<FileEntryView>,
    y: Option<FileEntryView>,
)
    ensures
        resolve_path(x, y, x) == (y, false),
{
}

/// When the active stream left a path as it was in the base, the source
/// stream's change or deletion comes through: the kept entry, if any, has the
/// source's hash, and the path is no conflict.
pub proof fn law_unchanged_active_takes_source(
    x: Option<FileEntryView>,
    y: Option<FileEntryView>,
)
    ensures
        !resolve_path(x, x, y).1,
        resolve_path(x, x, y).0 is Some <==> y is Some,
        resolve_path(x, x, y).0 matches Some(e) ==> e.hash == y->0.hash,
{
}

/// A path is a conflict only when both streams hold it with different hashes
/// and neither kept the base version; the active version is then kept.
pub proof fn law_conflict_means_divergent_changes(
    b: Option<FileEntryView>,
    a: Option<FileEntryView>,
    s: Option<FileEntryView>,
)
    ensures
        resolve_path(b, a, s).1 ==> {
            &&& a is Some && s is Some
            &&& a->0.hash != s->0.hash
            &&& resolve_path(b, a, s).0 == a
            &&& b matches Some(bb) ==> bb.hash != a->0.hash && bb.hash != s->0.hash
        },
{
}

/// Merging two streams whose heads hold the same files yields no conflicts
/// and keeps those files.
pub proof fn law_merge_of_identical_heads(
    ps: Seq<Seq<char>>,
    base: Seq<FileEntryView>,
    side: Seq<FileEntryView>,
)
    ensures
        merge_conflicts(ps, base, side, side) == Seq::<Seq<char>>::empty(),
        merged_files(ps, base, side, side) == kept_from(ps, side),
    decreases ps.len(),
{
    if ps.len() > 0 {
        law_merge_of_identical_heads(ps.drop_last(), base, side);
        law_identical_sides_agree(find_entry(base, ps.last()), find_entry(side, ps.last()));
    }
}

/// Merging a source stream that changed nothing since the base yields no
/// conflicts and keeps the active stream's files.
pub proof fn law_merge_of_unchanged_source(
    ps: Seq<Seq<char>>,
    base: Seq<FileEntryView>,
    active: Seq<FileEntryView>,
)
    ensures
        merge_conflicts(ps, base, active, base) == Seq::<Seq<char>>::empty(),
        merged_files(ps, base, active, base) == kept_from(ps, active),
    decreases ps.len(),
{
    if ps.len() > 0 {
        law_merge_of_unchanged_source(ps.drop_last(), base, active);
        law_unchanged_source_keeps_active(find_entry(base, ps.last()), find_entry(active, ps.last()));
    }
}

/// Merging into an active stream that changed nothing since the base yields
/// no conflicts.
pub proof fn law_merge_into_unchanged_active(
    ps: Seq<Seq<char>>,
    base: Seq<FileEntryView>,
    source: Seq<FileEntryView>,
)
    ensures
        merge_conflicts(ps, base, base, source) == Seq::<Seq<char>>::empty(),
    decreases ps.len(),
{
    if ps.len() > 0 {
        law_merge_into_unchanged_active(ps.drop_last(), base, source);
        law_unchanged_active_takes_source(find_entry(base, ps.last()), find_entry(source, ps.last()));
    }
}

/// A path that existed in the base, was edited in the active stream and was
/// deleted in the source stream keeps the active edit, with no conflict.
pub proof fn law_active_edit_survives_source_deletion(b: FileEntryView, a: FileEntryView)
    requires
        a.hash != b.hash,
    ensures
        resolve_path(Some(b), Some(a), None) == (Some(a), false),
{
}

/// A path the active stream left at its base hash and the source stream
/// deleted stays deleted, with no conflict.
pub proof fn law_source_deletion_of_untouched_file(b: FileEntryView, a: FileEntryView)
    requires
        a.hash == b.hash,
    ensures
        resolve_path(Some(b), Some(a), None) == (None::<FileEntryView>, false),
{
}

/// A path the active stream deleted stays deleted, whatever the source did, with no conflict.
pub proof fn law_active_deletion_stays(b: FileEntryView, s: Option<FileEntryView>)
    ensures
        resolve_path(Some(b), None, s) == (None::<FileEntryView>, false),
{
}

/// Judged by hashes: when one side kept the base hash and the other changed
/// it, the changed side's entry is kept, with no conflict.
pub proof fn law_one_sided_change_by_hash(b: FileEntryView, a: FileEntryView, s: FileEntryView)
    ensures
        a.hash == b.hash && s.hash != b.hash ==> resolve_path(Some(b), Some(a), Some(s)) == (Some(s), false),
        s.hash == b.hash && a.hash != b.hash ==> resolve_path(Some(b), Some(a), Some(s)) == (Some(a), false),
        a.hash == b.hash && s.hash == b.hash ==> resolve_path(Some(b), Some(a), Some(s)) == (Some(a), false),
{
}

/// When both sides hold a path with a hash other than the base's (or the base
/// lacks it), the active entry is kept, and the path is a conflict exactly
/// when the two sides' hashes differ.
pub proof fn law_both_sides_changed(b: Option<FileEntryView>, a: FileEntryView, s: FileEntryView)
    requires
        b matches Some(bb) ==> bb.hash != a.hash && bb.hash != s.hash,
    ensures
        resolve_path(b, Some(a), Some(s)) == (Some(a), a.hash != s.hash),
{
}

/// A path new on one side only is taken from that side, with no conflict;
/// a path in no list is not kept.
pub proof fn law_new_on_one_side(x: FileEntryView)
    ensures
        resolve_path(None, Some(x), None) == (Some(x), false),
        resolve_path(None, None, Some(x)) == (Some(x), false),
        resolve_path(None, None, None) == (None::<FileEntryView>, false),
{
}

proof fn lemma_add_new(acc: Seq<Seq<char>>, xs: Seq<Seq<char>>)
    ensures
        forall|x: Seq<char>| #[trigger] add_new(acc, xs).contains(x) <==> (acc.contains(x) || xs.contains(x)),
    decreases xs.len(),
{
    if xs.len() > 0 {
        let d = xs.drop_last();
        lemma_add_new(acc, d);
        let prev = add_new(acc, d);
        assert forall|x: Seq<char>| #[trigger] add_new(acc, xs).contains(x) <==> (acc.contains(x) || xs.contains(x)) by {
            if xs.contains(x) && !d.contains(x) {
                let k = choose|k: int| 0 <= k < xs.len() && xs[k] == x;
                if k < d.len() {
                    assert(d[k] == x);
                }
                assert(x == xs.last());
            }
            if d.contains(x) {
                let k = choose|k: int| 0 <= k < d.len() && d[k] == x;
                assert(xs[k] == x);
            }
            if !prev.contains(xs.last()) {
                assert(prev.push(xs.last()).contains(x) <==> (prev.contains(x) || x == xs.last())) by {
                    if prev.push(xs.last()).contains(x) {
                        let k = choose|k: int| 0 <= k < prev.len() + 1 && prev.push(xs.last())[k] == x;
                        if k < prev.len() {
                            assert(prev[k] == x);
                        }
                    }
                    if prev.contains(x) {
                        let k = choose|k: int| 0 <= k < prev.len() && prev[k] == x;
                        assert(prev.push(xs.last())[k] == x);
                    }
                    assert(prev.push(xs.last())[prev.len() as int] == xs.last());
                }
            }
            assert(xs[xs.len() - 1] == xs.last());
        }
    }
}

proof fn lemma_path_listed(files: Seq<FileEntryView>, p: Seq<char>)
    requires
        find_entry(files, p) is Some,
    ensures
        paths_of(files).contains(p),
{
    lemma_find_entry(files, p);
    lemma_entry_index(files, p, 0);
    let k = entry_index(files, p, 0);
    assert(paths_of(files)[k] == p);
}

proof fn lemma_merged_members(
    ps: Seq<Seq<char>>,
    base: Seq<FileEntryView>,
    active: Seq<FileEntryView>,
    source: Seq<FileEntryView>,
)
    ensures
        forall|e: FileEntryView| #[trigger] merged_files(ps, base, active, source).contains(e) <==> exists|j: int|
            0 <= j < ps.len() && resolve_in(base, active, source, #[trigger] ps[j]).0 == Some(e),
    decreases ps.len(),
{
    if ps.len() > 0 {
        let d = ps.drop_last();
        lemma_merged_members(d, base, active, source);
        let prev = merged_files(d, base, active, source);
        let last = resolve_in(base, active, source, ps.last()).0;
        assert forall|e: FileEntryView| #[trigger] merged_files(ps, base, active, source).contains(e) <==> exists|j: int|
            0 <= j < ps.len() && resolve_in(base, active, source, #[trigger] ps[j]).0 == Some(e) by {
            let m = merged_files(ps, base, active, source);
            if m.contains(e) {
                let k = choose|k: int| 0 <= k < m.len() && m[k] == e;
                if k < prev.len() {
                    assert(m[k] == prev[k]);
                    assert(prev.contains(e));
                    let j = choose|j: int| 0 <= j < d.len() && resolve_in(base, active, source, #[trigger] d[j]).0 == Some(e);
                    assert(ps[j] == d[j]);
                } else {
                    assert(ps[ps.len() - 1] == ps.last());
                }
            }
            if exists|j: int| 0 <= j < ps.len() && resolve_in(base, active, source, #[trigger] ps[j]).0 == Some(e) {
                let j = choose|j: int| 0 <= j < ps.len() && resolve_in(base, active, source, #[trigger] ps[j]).0 == Some(e);
                if j < d.len() {
                    assert(d[j] == ps[j]);
                    assert(prev.contains(e));
                    let k = choose|k: int| 0 <= k < prev.len() && prev[k] == e;
                    match last {
                        Some(x) => { assert(prev.push(x)[k] == e); },
                        None => {},
                    }
                } else {
                    assert(ps[j] == ps.last());
                    assert(prev.push(e)[prev.len() as int] == e);
                }
            }
        }
    }
}

proof fn lemma_conflict_members(
    ps: Seq<Seq<char>>,
    base: Seq<FileEntryView>,
    active: Seq<FileEntryView>,
    source: Seq<FileEntryView>,
)
    ensures
        forall|q: Seq<char>| #[trigger] merge_conflicts(ps, base, active, source).contains(q) <==> (ps.contains(q)
            && resolve_in(base, active, source, q).1),
    decreases ps.len(),
{
    if ps.len() > 0 {
        let d = ps.drop_last();
        lemma_conflict_members(d, base, active, source);
        let prev = merge_conflicts(d, base, active, source);
        assert forall|q: Seq<char>| #[trigger] merge_conflicts(ps, base, active, source).contains(q) <==> (ps.contains(q)
            && resolve_in(base, active, source, q).1) by {
            let m = merge_conflicts(ps, base, active, source);
            if m.contains(q) {
                let k = choose|k: int| 0 <= k < m.len() && m[k] == q;
                if k < prev.len() {
                    assert(m[k] == prev[k]);
                    assert(prev.contains(q));
                    let j = choose|j: int| 0 <= j < d.len() && d[j] == q;
                    assert(ps[j] == q);
                } else {
                    assert(ps[ps.len() - 1] == q);
                }
            }
            if ps.contains(q) && resolve_in(base, active, source, q).1 {
                let j = choose|j: int| 0 <= j < ps.len() && ps[j] == q;
                if j < d.len() {
                    assert(d[j] == q);
                    assert(prev.contains(q));
                    let k = choose|k: int| 0 <= k < prev.len() && prev[k] == q;
                    assert(m[k] == q);
                } else {
                    assert(q == ps.last());
                    assert(m[prev.len() as int] == q);
                }
            }
        }
    }
}

/// The merge of three file lists keeps, for every path that any of them holds,
/// the entry that path resolves to, and nothing else; and a path is among the
/// conflicts exactly when it resolves as one.
pub proof fn law_merge_reflects_each_path(
    base: Seq<FileEntryView>,
    active: Seq<FileEntryView>,
    source: Seq<FileEntryView>,
    p: Seq<char>,
    e: FileEntryView,
)
    requires
        find_entry(base, p) is Some || find_entry(active, p) is Some || find_entry(source, p) is Some,
    ensures
        resolve_in(base, active, source, p).0 == Some(e) ==> merged_files(all_paths(base, active, source), base, active, source).contains(e),
        merge_conflicts(all_paths(base, active, source), base, active, source).contains(p)
            <==> resolve_in(base, active, source, p).1,
        merged_files(all_paths(base, active, source), base, active, source).contains(e) ==> exists|q: Seq<char>|
            #[trigger] all_paths(base, active, source).contains(q) && resolve_in(base, active, source, q).0 == Some(e),
{
    let ps = all_paths(base, active, source);
    let e0 = add_new(seq![], paths_of(base));
    let e1 = add_new(e0, paths_of(active));
    lemma_add_new(seq![], paths_of(base));
    lemma_add_new(e0, paths_of(active));
    lemma_add_new(e1, paths_of(source));
    if find_entry(base, p) is Some {
        lemma_path_listed(base, p);
    } else if find_entry(active, p) is Some {
        lemma_path_listed(active, p);
    } else {
        lemma_path_listed(source, p);
    }
    assert(ps.contains(p));
    lemma_merged_members(ps, base, active, source);
    lemma_conflict_members(ps, base, active, source);
    let j = choose|j: int| 0 <= j < ps.len() && ps[j] == p;
    if resolve_in(base, active, source, p).0 == Some(e) {
        assert(resolve_in(base, active, source, ps[j]).0 == Some(e));
    }
    if merged_files(ps, base, active, source).contains(e) {
        let k = choose|k: int| 0 <= k < ps.len() && resolve_in(base, active, source, #[trigger] ps[k]).0 == Some(e);
        assert(ps.contains(ps[k]));
    }
}

/// Merging lists where the active stream edited a file the source stream
/// deleted keeps the active edit, and that file is no conflict.
pub proof fn law_merge_keeps_active_edit_over_source_deletion(
    base: Seq<FileEntryView>,
    active: Seq<FileEntryView>,
    source: Seq<FileEntryView>,
    p: Seq<char>,
)
    requires
        find_entry(base, p) is Some,
        find_entry(active, p) is Some,
        find_entry(active, p)->0.hash != find_entry(base, p)->0.hash,
        find_entry(source, p) is None,
    ensures
        merged_files(all_paths(base, active, source), base, active, source).contains(find_entry(active, p)->0),
        !merge_conflicts(all_paths(base, active, source), base, active, source).contains(p),
{
    law_active_edit_survives_source_deletion(find_entry(base, p)->0, find_entry(active, p)->0);
    law_merge_reflects_each_path(base, active, source, p, find_entry(active, p)->0);
}

/// The merge of a source stream into the active (target) stream, ready to be applied.
pub fn plan_merge(
    source_stream: &str,
    target_stream: &str,
    base_seal: Option<String>,
    source_head: &str,
    target_head: &str,
    base_files: &Vec<FileEntry>,
    target_files: &Vec<FileEntry>,
    source_files: &Vec<FileEntry>,
) -> (r: PendingMerge)
    ensures
        r.source_stream@ == source_stream@,
        r.target_stream@ == target_stream@,
        r.base_seal == base_seal,
        r.source_seal@ == source_head@,
        r.target_seal@ == target_head@,
        ({
            let (b, a, s) = (entries_view(base_files@), entries_view(target_files@), entries_view(source_files@));
            &&& entries_view(r.files@) == merged_files(all_paths(b, a, s), b, a, s)
            &&& strings_view(r.conflicts@) == merge_conflicts(all_paths(b, a, s), b, a, s)
        }),
{
    let (files, conflicts) = three_way_merge(base_files, target_files, source_files);
    PendingMerge {
        source_stream: string_of(chars_of(source_stream).as_slice()),
        target_stream: string_of(chars_of(target_stream).as_slice()),
        base_seal,
        source_seal: string_of(chars_of(source_head).as_slice()),
        target_seal: string_of(chars_of(target_head).as_slice()),
        files,
        conflicts,
    }
}

/// The message of the seal that applies a merge.
pub fn merge_message(pending: &PendingMerge) -> (r: String)
    ensures
        r@ == "Merge stream '"@ + pending.source_stream@ + "' into '"@ + pending.target_stream@ + "'"@,
{
    let mut m = lit("Merge stream '");
    push_all(&mut m, chars_of(pending.source_stream.as_str()).as_slice());
    push_all(&mut m, lit("' into '").as_slice());
    push_all(&mut m, chars_of(pending.target_stream.as_str()).as_slice());
    push_all(&mut m, lit("'").as_slice());
    string_of(m.as_slice())
}

/// The paths of a list of entries, in order.
pub fn entry_paths(files: &Vec<FileEntry>) -> (r: Vec<String>)
    ensures
        strings_view(r@) == paths_of(entries_view(files@)),
{
    let mut r: Vec<String> = Vec::new();
    let mut i: usize = 0;
    while i < files.len()
        invariant
            0 <= i <= files@.len(),
            strings_view(r@) == paths_of(entries_view(files@)).subrange(0, i as int),
        decreases files@.len() - i,
    {
        let ghost before = strings_view(r@);
        r.push(files[i].path.clone());
        assert(strings_view(r@) =~= before.push(files@[i as int].path@));
        assert(paths_of(entries_view(files@)).subrange(0, i + 1) =~= paths_of(entries_view(files@)).subrange(0, i as int).push(files@[i as int].path@));
        i += 1;
    }
    assert(paths_of(entries_view(files@)).subrange(0, i as int) =~= paths_of(entries_view(files@)));
    r
}

} // verus!

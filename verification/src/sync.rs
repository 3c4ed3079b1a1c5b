//! Synchronising streams with a GitHub repository: how seals are named in
//! commit messages, how far local and remote histories diverge, which files a
//! push uploads, and how pulled commits update a seal's files.
//! The HTTP exchanges stay with the caller.

use vstd::prelude::*;
use vstd::utf8::encode_utf8;
use crate::text::{
    chars_of, chars_eq, lit, push_all, slice_chars, split_char, split_char_exec, string_of,
    starts_with, starts_with_exec, trim, trim_exec, occurs_at, occurs_at_exec, find_from,
    find_from_exec, lemma_find_from, eq_ignore_ascii_case, eq_ignore_ascii_case_exec,
};
use crate::seal::{FileEntry, FileEntryView, Seal, entries_view, strings_view, strings_contain};
use crate::reservoir::{first_true, first_true_exec};
use crate::merge::{entry_index, find_entry, find_entry_exec, lemma_entry_index, lemma_find_entry};
use crate::lineage::{SealGraph, parents_of, parents_exec, universe, all_parents, lemma_parents_in_all};

verus! {

/// Index of the first occurrence of `p` in `s` at or after `i`, or the length of `s`.
pub open spec fn find_pat_from(s: Seq<char>, p: Seq<char>, i: int) -> int
    decreases s.len() - i,
{
    if i < 0 || i >= s.len() {
        s.len() as int
    } else if occurs_at(s, p, i) {
        i
    } else {
        find_pat_from(s, p, i + 1)
    }
}

/// The marker that starts a seal id in a commit message.
pub open spec fn sync_marker() -> Seq<char> {
    "DAM Sync ["@
}

/// The seal id a commit message carries: the text between the first
/// `DAM Sync [` and the next `]`, if both are there.
pub open spec fn seal_id_in_message(msg: Seq<char>) -> Option<Seq<char>> {
    let start = find_pat_from(msg, sync_marker(), 0);
    if start >= msg.len() {
        None
    } else {
        let from = start + 10;
        let end = find_from(msg, ']', from);
        if end >= msg.len() {
            None
        } else {
            Some(msg.subrange(from, end))
        }
    }
}

proof fn lemma_find_pat_from(s: Seq<char>, p: Seq<char>, i: int)
    requires
        0 <= i <= s.len(),
    ensures
        i <= find_pat_from(s, p, i) <= s.len(),
        find_pat_from(s, p, i) < s.len() ==> occurs_at(s, p, find_pat_from(s, p, i)),
        forall|k: int| i <= k < find_pat_from(s, p, i) ==> !occurs_at(s, p, k),
    decreases s.len() - i,
{
    if i < s.len() && !occurs_at(s, p, i) {
        lemma_find_pat_from(s, p, i + 1);
    }
}

/// The seal id a commit message carries.
pub fn extract_seal_id(msg: &str) -> (r: Option<String>)
    ensures
        match r {
            Some(id) => seal_id_in_message(msg@) == Some(id@),
            None => seal_id_in_message(msg@) is None,
        },
{
    let m = chars_of(msg);
    let marker = lit("DAM Sync [");
    proof { reveal_strlit("DAM Sync ["); }
    let mut start: usize = 0;
    while start < m.len() && !occurs_at_exec(m.as_slice(), marker.as_slice(), start)
        invariant
            m@ == msg@,
            marker@ == sync_marker(),
            0 <= start <= m@.len(),
            find_pat_from(msg@, sync_marker(), start as int) == find_pat_from(msg@, sync_marker(), 0),
        decreases m@.len() - start,
    {
        start += 1;
    }
    if start >= m.len() {
        return None;
    }
    proof {
        lemma_find_pat_from(msg@, sync_marker(), 0);
    }
    let from = start + 10;
    let end = find_from_exec(m.as_slice(), ']', from);
    proof { lemma_find_from(msg@, ']', from as int); }
    if end >= m.len() {
        return None;
    }
    Some(string_of(slice_chars(m.as_slice(), from, end).as_slice()))
}

/// The message of the commit that carries a seal.
pub open spec fn sync_commit_message_spec(id: Seq<char>, message: Seq<char>) -> Seq<char> {
    sync_marker() + id + "]: "@ + message
}

/// The message of the commit that carries a seal: `DAM Sync [<id>]: <message>`.
pub fn sync_commit_message(id: &str, message: &str) -> (r: String)
    ensures
        r@ == sync_commit_message_spec(id@, message@),
{
    let mut r = lit("DAM Sync [");
    push_all(&mut r, chars_of(id).as_slice());
    push_all(&mut r, lit("]: ").as_slice());
    push_all(&mut r, chars_of(message).as_slice());
    string_of(r.as_slice())
}

/// A seal pushed in a commit is recognised again in that commit's message,
/// provided its id holds no `]`.
pub proof fn law_pushed_seal_id_is_read_back(id: Seq<char>, message: Seq<char>)
    requires
        !id.contains(']'),
    ensures
        seal_id_in_message(sync_commit_message_spec(id, message)) == Some(id),
{
    reveal_strlit("DAM Sync [");
    reveal_strlit("]: ");
    let m = sync_commit_message_spec(id, message);
    assert(occurs_at(m, sync_marker(), 0)) by {
        assert(m.subrange(0, 10) =~= sync_marker());
    }
    assert(find_pat_from(m, sync_marker(), 0) == 0);
    let e: int = (10 + id.len()) as int;
    assert(m[e] == ']');
    lemma_find_from(m, ']', 10);
    let f = find_from(m, ']', 10);
    assert forall|k: int| 10 <= k < e implies m[k] != ']' by {
        assert(m[k] == id[k - 10]);
        if m[k] == ']' {
            assert(id.contains(']'));
        }
    }
    assert(f == e);
    assert(m.subrange(10, e) =~= id);
}

/// Index of the first local seal the remote history knows, or the length.
pub open spec fn ahead_count(local: Seq<Seq<char>>, remote: Seq<Seq<char>>) -> int
    decreases local.len(),
{
    if local.len() == 0 {
        0
    } else if remote.contains(local[0]) {
        0
    } else {
        1 + ahead_count(local.drop_first(), remote)
    }
}

/// Index of the first remote commit that carries a local seal, or the length.
pub open spec fn behind_count(local: Seq<Seq<char>>, remote: Seq<Seq<char>>) -> int
    decreases remote.len(),
{
    if remote.len() == 0 {
        0
    } else if remote[0].len() > 0 && local.contains(remote[0]) {
        0
    } else {
        1 + behind_count(local, remote.drop_first())
    }
}

/// How far a stream's local seals (newest first) and the seal ids of the
/// remote commits (newest first, empty for commits that carry none) diverge:
/// local seals before the first one the remote knows, and remote commits before
/// the first one that carries a local seal.
pub fn diff_counts(local: &Vec<String>, remote: &Vec<String>) -> (r: (usize, usize))
    ensures
        r.0 == ahead_count(strings_view(local@), strings_view(remote@)),
        r.1 == behind_count(strings_view(local@), strings_view(remote@)),
{
    let ghost lv = strings_view(local@);
    let ghost rv = strings_view(remote@);
    let mut ahead: usize = 0;
    assert(lv.subrange(0, lv.len() as int) =~= lv);
    while ahead < local.len() && !strings_contain(remote, &local[ahead])
        invariant
            lv == strings_view(local@),
            rv == strings_view(remote@),
            0 <= ahead <= local@.len(),
            ahead_count(lv, rv) == ahead + ahead_count(lv.subrange(ahead as int, lv.len() as int), rv),
        decreases local@.len() - ahead,
    {
        let ghost rest = lv.subrange(ahead as int, lv.len() as int);
        assert(rest[0] == local@[ahead as int]@);
        assert(rest.drop_first() =~= lv.subrange(ahead + 1, lv.len() as int));
        ahead += 1;
    }
    proof {
        let rest = lv.subrange(ahead as int, lv.len() as int);
        if ahead < local@.len() {
            assert(rest[0] == local@[ahead as int]@);
        }
    }
    let mut behind: usize = 0;
    assert(rv.subrange(0, rv.len() as int) =~= rv);
    while behind < remote.len() && !(!remote[behind].as_str().is_empty() && strings_contain(local, &remote[behind]))
        invariant
            lv == strings_view(local@),
            rv == strings_view(remote@),
            0 <= behind <= remote@.len(),
            behind_count(lv, rv) == behind + behind_count(lv, rv.subrange(behind as int, rv.len() as int)),
        decreases remote@.len() - behind,
    {
        let ghost rest = rv.subrange(behind as int, rv.len() as int);
        assert(rest[0] == remote@[behind as int]@);
        assert(rest.drop_first() =~= rv.subrange(behind + 1, rv.len() as int));
        behind += 1;
    }
    proof {
        let rest = rv.subrange(behind as int, rv.len() as int);
        if behind < remote@.len() {
            assert(rest[0] == remote@[behind as int]@);
        }
    }
    (ahead, behind)
}

/// Whether `chain` follows first parents: each seal after the first is the
/// first parent of the one before it.
pub open spec fn follows_first_parents(g: Seq<(Seq<char>, Seq<Seq<char>>)>, chain: Seq<Seq<char>>) -> bool {
    forall|k: int| 0 <= k < chain.len() - 1 ==> parents_of(g, #[trigger] chain[k]).len() > 0
        && chain[k + 1] == parents_of(g, chain[k])[0]
}

/// The history of a stream head along first parents: the head, its first
/// parent, and so on, ending at a seal with no readable parent. A first parent
/// met a second time ends it too (a history that loops has no end otherwise).
pub fn first_parent_chain(g: &SealGraph, head: &String) -> (r: Vec<String>)
    ensures
        strings_view(r@).len() >= 1,
        strings_view(r@)[0] == head@,
        follows_first_parents(g@, strings_view(r@)),
        strings_view(r@).no_duplicates(),
        ({
            let c = strings_view(r@);
            let ps = parents_of(g@, c.last());
            ps.len() == 0 || c.contains(ps[0])
        }),
{
    let ghost gv = g@;
    let ghost uni = universe(gv, head@);
    let mut chain: Vec<String> = Vec::new();
    chain.push(head.clone());
    let mut cur = head.clone();
    proof {
        vstd::seq_lib::seq_to_set_is_finite(seq![head@] + all_parents(gv));
        assert(strings_view(chain@) =~= seq![head@]);
        assert((seq![head@] + all_parents(gv))[0] == head@);
    }
    loop
        invariant
            gv == g@,
            uni == universe(gv, head@),
            uni.finite(),
            strings_view(chain@).len() >= 1,
            strings_view(chain@)[0] == head@,
            strings_view(chain@).last() == cur@,
            follows_first_parents(gv, strings_view(chain@)),
            strings_view(chain@).no_duplicates(),
            forall|v: Seq<char>| #[trigger] strings_view(chain@).contains(v) ==> uni.contains(v),
        decreases uni.difference(strings_view(chain@).to_set()).len(),
    {
        let ps = parents_exec(g, &cur);
        if ps.len() == 0 {
            return chain;
        }
        let next = ps[0].clone();
        if strings_contain(&chain, &next) {
            return chain;
        }
        let ghost before = strings_view(chain@);
        proof {
            assert(strings_view(ps@)[0] == next@);
            assert(parents_of(gv, cur@).contains(next@));
            lemma_parents_in_all(gv, cur@, next@);
            let ap = all_parents(gv);
            let k = choose|k: int| 0 <= k < ap.len() && ap[k] == next@;
            assert((seq![head@] + ap)[k + 1] == next@);
            assert((seq![head@] + ap).contains(next@));
            assert(uni.contains(next@));
        }
        chain.push(next.clone());
        cur = next;
        proof {
            let after = strings_view(chain@);
            assert(after =~= before.push(cur@));
            before.lemma_push_to_set_commute(cur@);
            uni.lemma_set_insert_diff_decreases(before.to_set(), cur@);
            assert forall|k: int| 0 <= k < after.len() - 1 implies parents_of(gv, #[trigger] after[k]).len() > 0
                && after[k + 1] == parents_of(gv, after[k])[0] by {
                if k < before.len() - 1 {
                    assert(after[k] == before[k] && after[k + 1] == before[k + 1]);
                } else {
                    assert(after[k] == before.last());
                }
            }
            assert forall|a: int, b: int| 0 <= a < after.len() && 0 <= b < after.len() && a != b implies after[a] != after[b] by {
                if a < before.len() && b < before.len() {
                } else if a == before.len() {
                    if after[a] == after[b] {
                        assert(before[b] == cur@);
                        assert(before.contains(cur@));
                    }
                } else {
                    if after[a] == after[b] {
                        assert(before[a] == cur@);
                        assert(before.contains(cur@));
                    }
                }
            }
            assert forall|v: Seq<char>| #[trigger] after.contains(v) implies uni.contains(v) by {
                let k = choose|k: int| 0 <= k < after.len() && after[k] == v;
                if k < before.len() {
                    assert(before[k] == v);
                    assert(before.contains(v));
                }
            }
        }
    }
}

/// Whether a path belongs to the reservoir's own `.dam` structures.
pub open spec fn is_dam_path(path: Seq<char>) -> bool {
    starts_with(path, ".dam/"@)
}

/// The entries of the latest seal a push uploads: those (outside `.dam/`) whose
/// path the base seal lacks or holds with another hash.
pub open spec fn changed_entries(latest: Seq<FileEntryView>, base: Seq<FileEntryView>) -> Seq<FileEntryView>
    decreases latest.len(),
{
    if latest.len() == 0 {
        seq![]
    } else {
        let prev = changed_entries(latest.drop_last(), base);
        let hf = latest.last();
        if is_dam_path(hf.path) {
            prev
        } else {
            match find_entry(base, hf.path) {
                Some(bf) => if bf.hash != hf.hash { prev.push(hf) } else { prev },
                None => prev.push(hf),
            }
        }
    }
}

/// The entries of the base seal a push deletes remotely: those (outside
/// `.dam/`) whose path the latest seal lacks.
pub open spec fn deleted_entries(latest: Seq<FileEntryView>, base: Seq<FileEntryView>) -> Seq<FileEntryView>
    decreases base.len(),
{
    if base.len() == 0 {
        seq![]
    } else {
        let prev = deleted_entries(latest, base.drop_last());
        let bf = base.last();
        if !is_dam_path(bf.path) && find_entry(latest, bf.path) is None {
            prev.push(bf)
        } else {
            prev
        }
    }
}

/// Whether a push uploads an entry of the latest seal: it lies outside
/// `.dam/`, and the base seal lacks its path or holds it with another hash.
pub open spec fn must_upload(e: FileEntryView, base: Seq<FileEntryView>) -> bool {
    !is_dam_path(e.path) && match find_entry(base, e.path) {
        Some(bf) => bf.hash != e.hash,
        None => true,
    }
}

/// A push uploads exactly the entries of the latest seal outside `.dam/`
/// whose path the base seal lacks or holds with another hash, each as often
/// as the latest seal lists it, in the latest seal's order; and it deletes
/// exactly the base entries outside `.dam/` whose path the latest seal lacks.
pub proof fn law_push_uploads_new_and_changed_files(latest: Seq<FileEntryView>, base: Seq<FileEntryView>)
    ensures
        forall|e: FileEntryView| #[trigger] changed_entries(latest, base).contains(e)
            <==> latest.contains(e) && !is_dam_path(e.path) && match find_entry(base, e.path) {
                Some(bf) => bf.hash != e.hash,
                None => true,
            },
        changed_entries(latest, base) == latest.filter(|e: FileEntryView| must_upload(e, base)),
        forall|e: FileEntryView| #[trigger] deleted_entries(latest, base).contains(e)
            <==> base.contains(e) && !is_dam_path(e.path) && find_entry(latest, e.path) is None,
    decreases latest.len() + base.len(),
{
    reveal(Seq::filter);
    if latest.len() > 0 {
        let d = latest.drop_last();
        let x = latest.last();
        law_push_uploads_new_and_changed_files(d, base);
        let prev = changed_entries(d, base);
        assert forall|e: FileEntryView| #[trigger] changed_entries(latest, base).contains(e)
            <==> latest.contains(e) && must_upload(e, base) by {
            let c = changed_entries(latest, base);
            if c.contains(e) {
                let k = choose|k: int| 0 <= k < c.len() && c[k] == e;
                if k < prev.len() {
                    assert(c[k] == prev[k]);
                    assert(prev.contains(e));
                    let j = choose|j: int| 0 <= j < d.len() && d[j] == e;
                    assert(latest[j] == e);
                } else {
                    assert(latest[latest.len() - 1] == e);
                }
            }
            if latest.contains(e) && must_upload(e, base) {
                let j = choose|j: int| 0 <= j < latest.len() && latest[j] == e;
                if j < d.len() {
                    assert(d[j] == e);
                    assert(prev.contains(e));
                    let k = choose|k: int| 0 <= k < prev.len() && prev[k] == e;
                    if must_upload(x, base) {
                        assert(prev.push(x)[k] == e);
                    }
                } else {
                    assert(e == x);
                    assert(prev.push(x)[prev.len() as int] == e);
                }
            }
        }
    } else {
        assert(latest.filter(|e: FileEntryView| must_upload(e, base)) =~= Seq::<FileEntryView>::empty());
    }
    if base.len() > 0 {
        let d = base.drop_last();
        let x = base.last();
        law_push_uploads_new_and_changed_files(latest, d);
        let prev = deleted_entries(latest, d);
        assert forall|e: FileEntryView| #[trigger] deleted_entries(latest, base).contains(e)
            <==> base.contains(e) && !is_dam_path(e.path) && find_entry(latest, e.path) is None by {
            let c = deleted_entries(latest, base);
            let keep = !is_dam_path(x.path) && find_entry(latest, x.path) is None;
            if c.contains(e) {
                let k = choose|k: int| 0 <= k < c.len() && c[k] == e;
                if k < prev.len() {
                    assert(c[k] == prev[k]);
                    assert(prev.contains(e));
                    let j = choose|j: int| 0 <= j < d.len() && d[j] == e;
                    assert(base[j] == e);
                } else {
                    assert(base[base.len() - 1] == e);
                }
            }
            if base.contains(e) && !is_dam_path(e.path) && find_entry(latest, e.path) is None {
                let j = choose|j: int| 0 <= j < base.len() && base[j] == e;
                if j < d.len() {
                    assert(d[j] == e);
                    assert(prev.contains(e));
                    let k = choose|k: int| 0 <= k < prev.len() && prev[k] == e;
                    if keep {
                        assert(prev.push(x)[k] == e);
                    }
                } else {
                    assert(e == x);
                    assert(prev.push(x)[prev.len() as int] == e);
                }
            }
        }
    }
}

/// What a push has to change remotely: the changed entries and the deleted ones.
pub fn push_changes(latest: &Vec<FileEntry>, base: &Vec<FileEntry>) -> (r: (Vec<FileEntry>, Vec<FileEntry>))
    ensures
        entries_view(r.0@) == changed_entries(entries_view(latest@), entries_view(base@)),
        entries_view(r.1@) == deleted_entries(entries_view(latest@), entries_view(base@)),
{
    let ghost lv = entries_view(latest@);
    let ghost bv = entries_view(base@);
    let dam = lit(".dam/");
    let mut changed: Vec<FileEntry> = Vec::new();
    let mut i: usize = 0;
    assert(lv.subrange(0, 0) =~= Seq::<FileEntryView>::empty());
    assert(entries_view(changed@) =~= Seq::<FileEntryView>::empty());
    while i < latest.len()
        invariant
            lv == entries_view(latest@),
            bv == entries_view(base@),
            dam@ == ".dam/"@,
            0 <= i <= latest@.len(),
            entries_view(changed@) == changed_entries(lv.subrange(0, i as int), bv),
        decreases latest@.len() - i,
    {
        assert(lv.subrange(0, i + 1).drop_last() =~= lv.subrange(0, i as int));
        assert(lv.subrange(0, i + 1).last() == latest@[i as int]@);
        let hf = &latest[i];
        let ghost before = entries_view(changed@);
        if !starts_with_exec(chars_of(hf.path.as_str()).as_slice(), dam.as_slice()) {
            match find_entry_exec(base, &hf.path) {
                Some(bf) => {
                    if !(bf.hash == hf.hash) {
                        changed.push(hf.duplicate());
                        assert(entries_view(changed@) =~= before.push(hf@));
                    }
                },
                None => {
                    changed.push(hf.duplicate());
                    assert(entries_view(changed@) =~= before.push(hf@));
                },
            }
        }
        i += 1;
    }
    assert(lv.subrange(0, i as int) =~= lv);
    let mut deleted: Vec<FileEntry> = Vec::new();
    let mut j: usize = 0;
    assert(bv.subrange(0, 0) =~= Seq::<FileEntryView>::empty());
    assert(entries_view(deleted@) =~= Seq::<FileEntryView>::empty());
    while j < base.len()
        invariant
            lv == entries_view(latest@),
            bv == entries_view(base@),
            dam@ == ".dam/"@,
            0 <= j <= base@.len(),
            entries_view(deleted@) == deleted_entries(lv, bv.subrange(0, j as int)),
        decreases base@.len() - j,
    {
        assert(bv.subrange(0, j + 1).drop_last() =~= bv.subrange(0, j as int));
        assert(bv.subrange(0, j + 1).last() == base@[j as int]@);
        let bf = &base[j];
        let ghost before = entries_view(deleted@);
        if !starts_with_exec(chars_of(bf.path.as_str()).as_slice(), dam.as_slice()) {
            if find_entry_exec(latest, &bf.path).is_none() {
                deleted.push(bf.duplicate());
                assert(entries_view(deleted@) =~= before.push(bf@));
            }
        }
        j += 1;
    }
    assert(bv.subrange(0, j as int) =~= bv);
    (changed, deleted)
}

/// One file change of a pulled commit: the path, whether it was removed, the
/// path it was renamed from, and the store name of its fetched content (none
/// when the content could not be fetched).
pub struct RemoteChange {
    pub path: String,
    pub removed: bool,
    pub previous: Option<String>,
    pub new_hash: Option<String>,
}

/// `files` without the entries at `path`.
pub open spec fn drop_path(files: Seq<FileEntryView>, path: Seq<char>) -> Seq<FileEntryView>
    decreases files.len(),
{
    if files.len() == 0 {
        seq![]
    } else if files.last().path == path {
        drop_path(files.drop_last(), path)
    } else {
        drop_path(files.drop_last(), path).push(files.last())
    }
}

/// The files of a pulled seal after one change: changes inside `.dam/` are
/// ignored; a removal drops the path; otherwise the old name of a rename is
/// dropped, and, when the content was fetched, the path is set to it.
pub open spec fn apply_change_spec(
    files: Seq<FileEntryView>,
    path: Seq<char>,
    removed: bool,
    previous: Option<Seq<char>>,
    new_hash: Option<Seq<char>>,
) -> Seq<FileEntryView> {
    if is_dam_path(path) {
        files
    } else if removed {
        drop_path(files, path)
    } else {
        let f1 = match previous {
            Some(p) => drop_path(files, p),
            None => files,
        };
        match new_hash {
            Some(h) => drop_path(f1, path).push(FileEntryView { path: path, hash: h, is_dir: false }),
            None => f1,
        }
    }
}

proof fn lemma_drop_path(files: Seq<FileEntryView>, path: Seq<char>)
    ensures
        forall|e: FileEntryView| #[trigger] drop_path(files, path).contains(e) <==> files.contains(e) && e.path != path,
    decreases files.len(),
{
    if files.len() > 0 {
        let d = files.drop_last();
        let x = files.last();
        lemma_drop_path(d, path);
        let prev = drop_path(d, path);
        assert forall|e: FileEntryView| #[trigger] drop_path(files, path).contains(e) <==> files.contains(e) && e.path != path by {
            let r = drop_path(files, path);
            if r.contains(e) {
                let k = choose|k: int| 0 <= k < r.len() && r[k] == e;
                if k < prev.len() {
                    assert(r[k] == prev[k]);
                    assert(prev.contains(e));
                    let j = choose|j: int| 0 <= j < d.len() && d[j] == e;
                    assert(files[j] == e);
                } else {
                    assert(files[files.len() - 1] == e);
                }
            }
            if files.contains(e) && e.path != path {
                let j = choose|j: int| 0 <= j < files.len() && files[j] == e;
                if j < d.len() {
                    assert(d[j] == e);
                    assert(prev.contains(e));
                    let k = choose|k: int| 0 <= k < prev.len() && prev[k] == e;
                    if x.path != path {
                        assert(prev.push(x)[k] == e);
                    }
                } else {
                    assert(e == x);
                    assert(prev.push(x)[prev.len() as int] == e);
                }
            }
        }
    }
}

proof fn lemma_find_pushed(d: Seq<FileEntryView>, x: FileEntryView)
    requires
        forall|k: int| 0 <= k < d.len() ==> #[trigger] d[k].path != x.path,
    ensures
        find_entry(d.push(x), x.path) == Some(x),
{
    let q = d.push(x);
    lemma_entry_index(q, x.path, 0);
    let i = entry_index(q, x.path, 0);
    assert(q[d.len() as int] == x);
    if i < d.len() {
        assert(q[i] == d[i]);
    }
}

/// What one pulled file change does to a seal's files: a change inside
/// `.dam/` leaves them as they are; a removal drops exactly the entries at
/// its path; otherwise the entries at the old name of a rename are dropped,
/// and a change whose content was fetched with hash `h` leaves exactly one
/// entry at its path, the last one, a file with hash `h`. Every other entry
/// is kept.
pub proof fn law_pull_applies_each_change(
    files: Seq<FileEntryView>,
    path: Seq<char>,
    removed: bool,
    previous: Option<Seq<char>>,
    new_hash: Option<Seq<char>>,
)
    ensures
        is_dam_path(path) ==> apply_change_spec(files, path, removed, previous, new_hash) == files,
        !is_dam_path(path) && removed ==> forall|e: FileEntryView|
            #[trigger] apply_change_spec(files, path, removed, previous, new_hash).contains(e)
                <==> files.contains(e) && e.path != path,
        !is_dam_path(path) && !removed ==> forall|e: FileEntryView|
            (previous matches Some(p) ==> e.path != p) && (new_hash is Some ==> e.path != path) ==> (
            #[trigger] apply_change_spec(files, path, removed, previous, new_hash).contains(e) <==> files.contains(e)),
        !is_dam_path(path) && !removed ==> (previous matches Some(p) ==> ((new_hash is None || p != path)
            ==> forall|k: int| 0 <= k < apply_change_spec(files, path, removed, previous, new_hash).len()
                ==> #[trigger] apply_change_spec(files, path, removed, previous, new_hash)[k].path != p)),
        !is_dam_path(path) && !removed ==> (new_hash matches Some(h) ==> {
            let r = apply_change_spec(files, path, removed, previous, new_hash);
            let x = (FileEntryView { path: path, hash: h, is_dir: false });
            &&& find_entry(r, path) == Some(x)
            &&& r.len() > 0 && r.last() == x
            &&& forall|k: int| 0 <= k < r.len() - 1 ==> #[trigger] r[k].path != path
        }),
{
    if !is_dam_path(path) {
        if removed {
            lemma_drop_path(files, path);
        } else {
            let f1 = match previous {
                Some(p) => drop_path(files, p),
                None => files,
            };
            match previous {
                Some(p) => { lemma_drop_path(files, p); },
                None => {},
            }
            let r = apply_change_spec(files, path, removed, previous, new_hash);
            match new_hash {
                Some(h) => {
                    let d = drop_path(f1, path);
                    let x = FileEntryView { path: path, hash: h, is_dir: false };
                    lemma_drop_path(f1, path);
                    assert forall|k: int| 0 <= k < d.len() implies #[trigger] d[k].path != x.path by {
                        assert(d.contains(d[k]));
                    }
                    lemma_find_pushed(d, x);
                    assert forall|k: int| 0 <= k < r.len() - 1 implies #[trigger] r[k].path != path by {
                        assert(r[k] == d[k]);
                    }
                    assert forall|e: FileEntryView| (previous matches Some(p) ==> e.path != p) && e.path != path
                        implies (#[trigger] r.contains(e) <==> files.contains(e)) by {
                        if r.contains(e) {
                            let k = choose|k: int| 0 <= k < r.len() && r[k] == e;
                            if k < d.len() {
                                assert(r[k] == d[k]);
                                assert(d.contains(e));
                            }
                        }
                        if files.contains(e) {
                            assert(f1.contains(e));
                            assert(d.contains(e));
                            let k = choose|k: int| 0 <= k < d.len() && d[k] == e;
                            assert(r[k] == e);
                        }
                    }
                    match previous {
                        Some(p) => {
                            if p != path {
                                assert forall|k: int| 0 <= k < r.len() implies #[trigger] r[k].path != p by {
                                    if k < d.len() {
                                        assert(r[k] == d[k]);
                                        assert(d.contains(d[k]));
                                        assert(f1.contains(d[k]));
                                    }
                                }
                            }
                        },
                        None => {},
                    }
                },
                None => {
                    match previous {
                        Some(p) => {
                            assert forall|k: int| 0 <= k < r.len() implies #[trigger] r[k].path != p by {
                                assert(f1.contains(f1[k]));
                            }
                        },
                        None => {},
                    }
                },
            }
        }
    }
}

fn drop_path_exec(files: Vec<FileEntry>, path: &String) -> (r: Vec<FileEntry>)
    ensures
        entries_view(r@) == drop_path(entries_view(files@), path@),
{
    let ghost fv = entries_view(files@);
    let mut kept: Vec<FileEntry> = Vec::new();
    let mut i: usize = 0;
    assert(fv.subrange(0, 0) =~= Seq::<FileEntryView>::empty());
    assert(entries_view(kept@) =~= Seq::<FileEntryView>::empty());
    while i < files.len()
        invariant
            fv == entries_view(files@),
            0 <= i <= files@.len(),
            entries_view(kept@) == drop_path(fv.subrange(0, i as int), path@),
        decreases files@.len() - i,
    {
        assert(fv.subrange(0, i + 1).drop_last() =~= fv.subrange(0, i as int));
        assert(fv.subrange(0, i + 1).last() == files@[i as int]@);
        let ghost before = entries_view(kept@);
        if !(files[i].path == *path) {
            kept.push(files[i].duplicate());
            assert(entries_view(kept@) =~= before.push(files@[i as int]@));
        }
        i += 1;
    }
    assert(fv.subrange(0, i as int) =~= fv);
    kept
}

/// The files of a pulled seal after one change of the commit.
pub fn apply_remote_change(files: Vec<FileEntry>, change: &RemoteChange) -> (r: Vec<FileEntry>)
    ensures
        entries_view(r@) == apply_change_spec(
            entries_view(files@),
            change.path@,
            change.removed,
            match change.previous { Some(p) => Some(p@), None => None },
            match change.new_hash { Some(h) => Some(h@), None => None },
        ),
{
    if starts_with_exec(chars_of(change.path.as_str()).as_slice(), lit(".dam/").as_slice()) {
        return files;
    }
    if change.removed {
        return drop_path_exec(files, &change.path);
    }
    let f1 = match &change.previous {
        Some(p) => drop_path_exec(files, p),
        None => files,
    };
    match &change.new_hash {
        Some(h) => {
            let mut f2 = drop_path_exec(f1, &change.path);
            let ghost before = entries_view(f2@);
            let e = FileEntry { path: change.path.clone(), hash: h.clone(), is_dir: false };
            f2.push(e);
            assert(entries_view(f2@) =~= before.push(FileEntryView { path: change.path@, hash: h@, is_dir: false }));
            f2
        },
        None => f1,
    }
}

/// The id of a seal made from a pulled commit: the seal id its message carries,
/// or `seal_git_` and the first eight bytes of the commit hash.
pub fn pulled_seal_id(commit_msg: &str, commit_sha: &str) -> (r: String)
    requires
        seal_id_in_message(commit_msg@) is None ==> encode_utf8(commit_sha@).len() >= 8
            && vstd::utf8::is_char_boundary(encode_utf8(commit_sha@), 8),
    ensures
        match seal_id_in_message(commit_msg@) {
            Some(id) => r@ == id,
            None => r@.len() >= 9 && r@.subrange(0, 9) == "seal_git_"@ && encode_utf8(r@.subrange(9, r@.len() as int))
                == encode_utf8(commit_sha@).subrange(0, 8),
        },
{
    match extract_seal_id(commit_msg) {
        Some(id) => id,
        None => {
            let (head, _tail) = commit_sha.split_at(8);
            let mut r = lit("seal_git_");
            let h = chars_of(head);
            push_all(&mut r, h.as_slice());
            proof {
                reveal_strlit("seal_git_");
                assert(r@.subrange(0, 9) =~= "seal_git_"@);
                assert(r@.subrange(9, r@.len() as int) =~= head@);
            }
            string_of(r.as_slice())
        },
    }
}

/// The `owner` and `repo` of an `owner/repo` text: exactly two parts, neither empty.
pub open spec fn repo_parts(value: Seq<char>) -> Option<(Seq<char>, Seq<char>)> {
    let parts = split_char(value, '/');
    if parts.len() == 2 && parts[0].len() > 0 && parts[1].len() > 0 {
        Some((parts[0], parts[1]))
    } else {
        None
    }
}

/// Splits an `owner/repo` setting.
pub fn parse_repo(value: &str) -> (r: Option<(String, String)>)
    ensures
        match r {
            Some((o, n)) => repo_parts(value@) == Some((o@, n@)),
            None => repo_parts(value@) is None,
        },
{
    let parts = split_char_exec(chars_of(value).as_slice(), '/');
    let ghost pv = parts@.map_values(|l: Vec<char>| l@);
    if parts.len() == 2 && parts[0].len() > 0 && parts[1].len() > 0 {
        assert(pv[0] == parts@[0]@ && pv[1] == parts@[1]@);
        Some((string_of(parts[0].as_slice()), string_of(parts[1].as_slice())))
    } else {
        proof {
            if parts@.len() == 2 {
                assert(pv[0] == parts@[0]@ && pv[1] == parts@[1]@);
            }
        }
        None
    }
}

/// How the GitHub provider authenticates.
#[derive(Clone, Debug)]
pub enum AuthMethod {
    FineGrainedToken { token: String },
    ClassicToken { token: String },
    SshKey { key_path: String, passphrase: Option<String> },
}

impl AuthMethod {
    /// The token sent as a bearer token; SSH keys have none, as the REST API needs a token.
    pub fn bearer_token(&self) -> (r: Option<String>)
        ensures
            match self {
                AuthMethod::FineGrainedToken { token } => r matches Some(t) && t@ == token@,
                AuthMethod::ClassicToken { token } => r matches Some(t) && t@ == token@,
                AuthMethod::SshKey { .. } => r is None,
            },
    {
        match self {
            AuthMethod::FineGrainedToken { token } => Some(token.clone()),
            AuthMethod::ClassicToken { token } => Some(token.clone()),
            AuthMethod::SshKey { .. } => None,
        }
    }
}

/// The credential of a legacy token file: a classic token, when the trimmed
/// content is not empty.
pub fn auth_from_legacy(content: &str) -> (r: Option<AuthMethod>)
    ensures
        trim(content@).len() == 0 ==> r is None,
        trim(content@).len() > 0 ==> (r matches Some(AuthMethod::ClassicToken { token }) && token@ == trim(content@)),
{
    let t = trim_exec(chars_of(content).as_slice());
    if t.len() == 0 {
        None
    } else {
        Some(AuthMethod::ClassicToken { token: string_of(t.as_slice()) })
    }
}

/// The credential chosen at the prompt: `3` an SSH key at the given path,
/// `1` a fine-grained token, anything else a classic token.
pub fn auth_from_choice(choice: &str, entered: &str) -> (r: AuthMethod)
    ensures
        trim(choice@) == "3"@ ==> (r matches AuthMethod::SshKey { key_path, passphrase } && key_path@ == trim(entered@) && passphrase is None),
        trim(choice@) == "1"@ ==> (r matches AuthMethod::FineGrainedToken { token } && token@ == trim(entered@)),
        trim(choice@) != "3"@ && trim(choice@) != "1"@ ==> (r matches AuthMethod::ClassicToken { token } && token@ == trim(entered@)),
{
    proof {
        reveal_strlit("1");
        reveal_strlit("3");
        assert("1"@[0] != "3"@[0]);
        assert("1"@ != "3"@);
    }
    let c = trim_exec(chars_of(choice).as_slice());
    let e = string_of(trim_exec(chars_of(entered).as_slice()).as_slice());
    if chars_eq(c.as_slice(), lit("3").as_slice()) {
        AuthMethod::SshKey { key_path: e, passphrase: None }
    } else if chars_eq(c.as_slice(), lit("1").as_slice()) {
        AuthMethod::FineGrainedToken { token: e }
    } else {
        AuthMethod::ClassicToken { token: e }
    }
}

/// What a synchronisation is asked to do.
#[derive(PartialEq, Eq, Structural, Debug, Clone, Copy)]
pub enum SyncAction {
    Push,
    Pull,
}

/// The action a `--action` value names: `push` or `pull` in any letter case.
pub fn sync_action(act: &str) -> (r: Option<SyncAction>)
    ensures
        r == if eq_ignore_ascii_case(act@, "push"@) {
            Some(SyncAction::Push)
        } else if eq_ignore_ascii_case(act@, "pull"@) {
            Some(SyncAction::Pull)
        } else {
            None
        },
{
    let a = chars_of(act);
    if eq_ignore_ascii_case_exec(a.as_slice(), lit("push").as_slice()) {
        Some(SyncAction::Push)
    } else if eq_ignore_ascii_case_exec(a.as_slice(), lit("pull").as_slice()) {
        Some(SyncAction::Pull)
    } else {
        None
    }
}

/// What an interactive synchronisation offers, given how far the stream and
/// the remote have moved apart.
#[derive(PartialEq, Eq, Structural, Debug, Clone, Copy)]
pub enum SyncOffer {
    /// Nothing to do.
    UpToDate,
    /// Both sides moved: the user picks pull, forced push, or neither.
    Conflict,
    /// Only local seals are new: pushing is offered.
    OfferPush,
    /// Only remote changes are new: pulling is offered.
    OfferPull,
}

/// The offer for `ahead` new local seals and `behind` new remote changes.
pub fn sync_offer(ahead: usize, behind: usize) -> (r: SyncOffer)
    ensures
        r == if ahead == 0 && behind == 0 {
            SyncOffer::UpToDate
        } else if ahead > 0 && behind > 0 {
            SyncOffer::Conflict
        } else if ahead > 0 {
            SyncOffer::OfferPush
        } else {
            SyncOffer::OfferPull
        },
{
    if ahead == 0 && behind == 0 {
        SyncOffer::UpToDate
    } else if ahead > 0 && behind > 0 {
        SyncOffer::Conflict
    } else if ahead > 0 {
        SyncOffer::OfferPush
    } else {
        SyncOffer::OfferPull
    }
}

/// The action picked to settle a conflict: `1` pulls, `2` pushes, spaces
/// around the answer ignored; anything else skips the stream.
pub fn conflict_choice(input: &str) -> (r: Option<SyncAction>)
    ensures
        r == if trim(input@) == "1"@ {
            Some(SyncAction::Pull)
        } else if trim(input@) == "2"@ {
            Some(SyncAction::Push)
        } else {
            None
        },
{
    let t = trim_exec(chars_of(input).as_slice());
    if crate::text::chars_eq(t.as_slice(), lit("1").as_slice()) {
        Some(SyncAction::Pull)
    } else if crate::text::chars_eq(t.as_slice(), lit("2").as_slice()) {
        Some(SyncAction::Push)
    } else {
        None
    }
}

/// How many of the remote commits, newest first, precede the first one whose
/// seal is known locally (`known` tells which are): the commits a pull is
/// missing; for a push, the place of the commit its base seal comes from.
pub fn commits_before_known(known: &Vec<bool>) -> (r: usize)
    ensures
        r == first_true(known@, 0),
{
    first_true_exec(known, 0)
}

/// The seal made from a pulled commit: made in `stream`, with the seal made
/// before it (if any) as its one parent.
pub fn pulled_seal(
    id: String,
    message: String,
    timestamp: String,
    files: Vec<FileEntry>,
    stream: &str,
    parent: Option<String>,
) -> (r: Seal)
    ensures
        r.id == id,
        r.message == message,
        r.timestamp == timestamp,
        r.files == files,
        r.stream@ == stream@,
        strings_view(r.parents@) == match parent {
            Some(p) => seq![p@],
            None => Seq::<Seq<char>>::empty(),
        },
{
    let mut parents: Vec<String> = Vec::new();
    match parent {
        Some(p) => {
            let ghost pv = p@;
            parents.push(p);
            assert(strings_view(parents@) =~= seq![pv]);
        },
        None => {
            assert(strings_view(parents@) =~= Seq::<Seq<char>>::empty());
        },
    }
    Seal { id, message, timestamp, files, stream: string_of(chars_of(stream).as_slice()), parents }
}

} // verus!



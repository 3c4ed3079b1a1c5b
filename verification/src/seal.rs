//! Seals: immutable snapshots of the staged files of a stream.

use vstd::prelude::*;
use crate::text::{chars_of, ends_with, ends_with_exec, lit, string_of};
use crate::objects::{StoredObject, encode_object, object_hash, seal_id, seal_id_of, zlib_encoded, zlib_decoded};

verus! {

/// One tracked path inside a seal: a file with the hash of its content, or a directory.
#[derive(Clone, Debug)]
pub struct FileEntry {
    pub path: String,
    pub hash: String,
    pub is_dir: bool,
}

/// The mathematical value of a [`FileEntry`].
pub struct FileEntryView {
    pub path: Seq<char>,
    pub hash: Seq<char>,
    pub is_dir: bool,
}

impl View for FileEntry {
    type V = FileEntryView;

    open spec fn view(&self) -> FileEntryView {
        FileEntryView { path: self.path@, hash: self.hash@, is_dir: self.is_dir }
    }
}

impl FileEntry {
    /// A copy of this entry.
    pub fn duplicate(&self) -> (r: FileEntry)
        ensures
            r@ == self@,
    {
        FileEntry { path: self.path.clone(), hash: self.hash.clone(), is_dir: self.is_dir }
    }
}

/// A snapshot record: its id, message, creation time, files, stream and parent seals.
#[derive(Clone, Debug)]
pub struct Seal {
    pub id: String,
    pub message: String,
    pub timestamp: String,
    pub files: Vec<FileEntry>,
    pub stream: String,
    pub parents: Vec<String>,
}

/// The views of a list of entries.
pub open spec fn entries_view(v: Seq<FileEntry>) -> Seq<FileEntryView> {
    v.map_values(|e: FileEntry| e@)
}

/// The views of a list of strings.
pub open spec fn strings_view(v: Seq<String>) -> Seq<Seq<char>> {
    v.map_values(|s: String| s@)
}

/// The stream a seal belongs to when its record names none.
pub fn default_stream() -> (r: String)
    ensures
        r@ == "main"@,
{
    let cs = lit("main");
    crate::text::string_of(cs.as_slice())
}

/// Copies of all entries of a list.
pub fn duplicate_entries(v: &Vec<FileEntry>) -> (r: Vec<FileEntry>)
    ensures
        entries_view(r@) == entries_view(v@),
{
    let mut r: Vec<FileEntry> = Vec::new();
    let mut i: usize = 0;
    while i < v.len()
        invariant
            0 <= i <= v@.len(),
            entries_view(r@) == entries_view(v@.subrange(0, i as int)),
        decreases v@.len() - i,
    {
        r.push(v[i].duplicate());
        i += 1;
        proof {
            assert(entries_view(v@.subrange(0, i as int)) =~= entries_view(
                v@.subrange(0, i - 1),
            ).push(v@[i - 1]@));
        }
    }
    proof {
        assert(v@.subrange(0, i as int) =~= v@);
    }
    r
}

/// Copies of all strings of a list.
pub fn duplicate_strings(v: &Vec<String>) -> (r: Vec<String>)
    ensures
        strings_view(r@) == strings_view(v@),
{
    let mut r: Vec<String> = Vec::new();
    let mut i: usize = 0;
    while i < v.len()
        invariant
            0 <= i <= v@.len(),
            strings_view(r@) == strings_view(v@.subrange(0, i as int)),
        decreases v@.len() - i,
    {
        r.push(v[i].clone());
        i += 1;
        proof {
            assert(strings_view(v@.subrange(0, i as int)) =~= strings_view(
                v@.subrange(0, i - 1),
            ).push(v@[i - 1]@));
        }
    }
    proof {
        assert(v@.subrange(0, i as int) =~= v@);
    }
    r
}

/// Whether a list of strings holds `x`.
pub fn strings_contain(v: &Vec<String>, x: &String) -> (r: bool)
    ensures
        r == strings_view(v@).contains(x@),
{
    let mut i: usize = 0;
    while i < v.len()
        invariant
            0 <= i <= v@.len(),
            forall|j: int| 0 <= j < i ==> v@[j]@ != x@,
        decreases v@.len() - i,
    {
        if v[i] == *x {
            assert(strings_view(v@)[i as int] == x@);
            return true;
        }
        i += 1;
    }
    proof {
        if strings_view(v@).contains(x@) {
            let k = choose|k: int| 0 <= k < strings_view(v@).len() && strings_view(v@)[k] == x@;
            assert(v@[k]@ == x@);
        }
    }
    false
}

/// What a staged path is on disk, as a seal records it.
#[derive(PartialEq, Eq, Structural, Debug, Clone, Copy)]
pub enum StagedKind {
    /// A directory (its path ends in `/` or it is one on disk).
    Dir,
    /// A file whose content is stored.
    File,
    /// Neither: it is left out of the seal.
    Missing,
}

/// How a staged path is recorded, given what the disk says of it.
pub fn staged_kind(path: &str, is_dir_on_disk: bool, is_file_on_disk: bool) -> (r: StagedKind)
    ensures
        r == if ends_with(path@, "/"@) || is_dir_on_disk {
            StagedKind::Dir
        } else if is_file_on_disk {
            StagedKind::File
        } else {
            StagedKind::Missing
        },
{
    if ends_with_exec(chars_of(path).as_slice(), lit("/").as_slice()) || is_dir_on_disk {
        StagedKind::Dir
    } else if is_file_on_disk {
        StagedKind::File
    } else {
        StagedKind::Missing
    }
}

/// The entry of a staged directory.
pub fn dir_entry(path: &str) -> (r: FileEntry)
    ensures
        r@ == (FileEntryView { path: path@, hash: "dir"@, is_dir: true }),
{
    FileEntry { path: string_of(chars_of(path).as_slice()), hash: string_of(lit("dir").as_slice()), is_dir: true }
}

/// The entry of a staged file with the given content, and the object to store for it.
pub fn file_entry(path: &str, content: &[u8]) -> (r: (FileEntry, StoredObject))
    ensures
        r.0@ == (FileEntryView { path: path@, hash: object_hash(content@), is_dir: false }),
        r.1.hash@ == object_hash(content@),
        r.1.compressed@ == zlib_encoded(content@),
        zlib_decoded(r.1.compressed@) == Some(content@),
{
    let obj = encode_object(content);
    let e = FileEntry { path: string_of(chars_of(path).as_slice()), hash: obj.hash.clone(), is_dir: false };
    (e, obj)
}

/// The parents of a new seal: the stream's latest seal, if any, then the extra parents.
pub open spec fn seal_parents_spec(latest: Option<Seq<char>>, extra: Seq<Seq<char>>) -> Seq<Seq<char>> {
    match latest {
        Some(l) => seq![l] + extra,
        None => extra,
    }
}

/// A new seal of the staged paths in a stream, created now: its parents are the
/// stream's latest seal and the extra parents, and its id is derived from the
/// message, the creation time, the parents and the staged paths.
pub fn create_seal(
    message: &str,
    staged: &Vec<String>,
    files: Vec<FileEntry>,
    stream: &str,
    latest: Option<String>,
    extra_parents: &Vec<String>,
) -> (r: Seal)
    ensures
        strings_view(r.parents@) == seal_parents_spec(
            match latest { Some(l) => Some(l@), None => None },
            strings_view(extra_parents@),
        ),
        r.id@ == seal_id_of(message@, r.timestamp@, strings_view(r.parents@), strings_view(staged@)),
        r.message@ == message@,
        r.stream@ == stream@,
        entries_view(r.files@) == entries_view(files@),
{
    let timestamp = crate::stream::now_rfc3339();
    let mut parents: Vec<String> = Vec::new();
    match &latest {
        Some(l) => parents.push(l.clone()),
        None => {},
    }
    let ghost head = strings_view(parents@);
    let mut i: usize = 0;
    while i < extra_parents.len()
        invariant
            0 <= i <= extra_parents@.len(),
            strings_view(parents@) == head + strings_view(extra_parents@).subrange(0, i as int),
        decreases extra_parents@.len() - i,
    {
        let ghost before = strings_view(parents@);
        parents.push(extra_parents[i].clone());
        assert(strings_view(parents@) =~= before.push(extra_parents@[i as int]@));
        assert(strings_view(extra_parents@).subrange(0, i + 1) =~= strings_view(extra_parents@).subrange(0, i as int).push(extra_parents@[i as int]@));
        i += 1;
    }
    proof {
        assert(strings_view(extra_parents@).subrange(0, i as int) =~= strings_view(extra_parents@));
        match latest {
            Some(l) => assert(head =~= seq![l@]),
            None => assert(head =~= Seq::<Seq<char>>::empty()),
        }
    }
    let id = seal_id(message, timestamp.as_str(), &parents, staged);
    Seal {
        id,
        message: string_of(chars_of(message).as_slice()),
        timestamp,
        files,
        stream: string_of(chars_of(stream).as_slice()),
        parents,
    }
}

/// The archive formats `import` understands.
#[derive(PartialEq, Eq, Structural, Debug, Clone, Copy)]
pub enum ImportFormat {
    Project,
    Seal,
    Zip,
    Unsupported,
}

/// The format of a file to import, by its extension: `.dam`, `.seal` or `.zip`.
pub fn import_format(file_path: &str) -> (r: ImportFormat)
    ensures
        r == if ends_with(file_path@, ".dam"@) {
            ImportFormat::Project
        } else if ends_with(file_path@, ".seal"@) {
            ImportFormat::Seal
        } else if ends_with(file_path@, ".zip"@) {
            ImportFormat::Zip
        } else {
            ImportFormat::Unsupported
        },
{
    let p = chars_of(file_path);
    if ends_with_exec(p.as_slice(), lit(".dam").as_slice()) {
        ImportFormat::Project
    } else if ends_with_exec(p.as_slice(), lit(".seal").as_slice()) {
        ImportFormat::Seal
    } else if ends_with_exec(p.as_slice(), lit(".zip").as_slice()) {
        ImportFormat::Zip
    } else {
        ImportFormat::Unsupported
    }
}

/// What an unpacked archive entry is taken as when importing.
#[derive(PartialEq, Eq, Structural, Debug, Clone, Copy)]
pub enum UnpackedEntry {
    /// A seal record, copied into the seals.
    SealRecord,
    /// The objects directory of a `.seal` archive, copied into the objects.
    Objects,
    /// Anything else.
    Other,
}

/// What an unpacked entry with the given name is taken as; a `.zip` archive
/// holds raw files, so its objects are made afresh rather than copied.
pub fn unpacked_entry(name: &str, from_zip: bool) -> (r: UnpackedEntry)
    ensures
        r == if ends_with(name@, ".json"@) {
            UnpackedEntry::SealRecord
        } else if name@ == "objects"@ && !from_zip {
            UnpackedEntry::Objects
        } else {
            UnpackedEntry::Other
        },
{
    if ends_with_exec(chars_of(name).as_slice(), lit(".json").as_slice()) {
        UnpackedEntry::SealRecord
    } else if crate::text::str_eq(name, "objects") && !from_zip {
        UnpackedEntry::Objects
    } else {
        UnpackedEntry::Other
    }
}

/// A member of an exported archive.
pub enum ArchiveMember {
    /// The seal record, stored under this name.
    Record(String),
    /// A directory entry.
    Directory(String),
    /// A member named `name` holding the content of the object `hash`.
    Object { name: String, hash: String },
}

/// The mathematical value of an [`ArchiveMember`].
pub enum MemberView {
    Record(Seq<char>),
    Directory(Seq<char>),
    Object(Seq<char>, Seq<char>),
}

/// The mathematical value of an archive member.
pub open spec fn member_view(m: ArchiveMember) -> MemberView {
    match m {
        ArchiveMember::Record(n) => MemberView::Record(n@),
        ArchiveMember::Directory(n) => MemberView::Directory(n@),
        ArchiveMember::Object { name, hash } => MemberView::Object(name@, hash@),
    }
}

/// The members that entries contribute to an export: for a `.zip`, each
/// directory and each file under its own path (files hold their content);
/// for a `.seal`, each file's object under `objects/` and its hash.
pub open spec fn entry_members(files: Seq<FileEntryView>, zip: bool) -> Seq<MemberView>
    decreases files.len(),
{
    if files.len() == 0 {
        seq![]
    } else {
        let prev = entry_members(files.drop_last(), zip);
        let e = files.last();
        if zip {
            if e.is_dir {
                prev.push(MemberView::Directory(e.path))
            } else {
                prev.push(MemberView::Object(e.path, e.hash))
            }
        } else if e.is_dir {
            prev
        } else {
            prev.push(MemberView::Object("objects/"@ + e.hash, e.hash))
        }
    }
}

/// What an export of seal `id` holds, in order: the seal record as
/// `<id>.json`, then the members of its entries.
pub open spec fn export_members(id: Seq<char>, files: Seq<FileEntryView>, zip: bool) -> Seq<MemberView> {
    seq![MemberView::Record(id + ".json"@)] + entry_members(files, zip)
}

/// The file a seal is exported to: `<id>.zip` for plain files, else `<id>.seal`.
pub fn export_name(id: &str, zip: bool) -> (r: String)
    ensures
        r@ == id@ + if zip { ".zip"@ } else { ".seal"@ },
{
    let mut v = chars_of(id);
    if zip {
        crate::text::push_all(&mut v, lit(".zip").as_slice());
    } else {
        crate::text::push_all(&mut v, lit(".seal").as_slice());
    }
    string_of(v.as_slice())
}

/// The members of the export of `seal`, in the order they are written.
pub fn export_plan(seal: &Seal, zip: bool) -> (r: Vec<ArchiveMember>)
    ensures
        r@.map_values(|m: ArchiveMember| member_view(m)) == export_members(
            seal.id@,
            entries_view(seal.files@),
            zip,
        ),
{
    let ghost fv = entries_view(seal.files@);
    let mut rec = chars_of(seal.id.as_str());
    crate::text::push_all(&mut rec, lit(".json").as_slice());
    let mut r: Vec<ArchiveMember> = Vec::new();
    r.push(ArchiveMember::Record(string_of(rec.as_slice())));
    let mut i: usize = 0;
    assert(fv.subrange(0, 0) =~= Seq::<FileEntryView>::empty());
    assert(r@.map_values(|m: ArchiveMember| member_view(m)) =~= seq![
        MemberView::Record(seal.id@ + ".json"@),
    ] + entry_members(fv.subrange(0, 0), zip));
    while i < seal.files.len()
        invariant
            fv == entries_view(seal.files@),
            i <= seal.files@.len(),
            r@.map_values(|m: ArchiveMember| member_view(m)) == seq![
                MemberView::Record(seal.id@ + ".json"@),
            ] + entry_members(fv.subrange(0, i as int), zip),
        decreases seal.files@.len() - i,
    {
        let e = &seal.files[i];
        let ghost before = r@.map_values(|m: ArchiveMember| member_view(m));
        assert(fv.subrange(0, i + 1).drop_last() =~= fv.subrange(0, i as int));
        assert(fv.subrange(0, i + 1).last() == e@);
        if zip {
            if e.is_dir {
                r.push(ArchiveMember::Directory(e.path.clone()));
            } else {
                r.push(ArchiveMember::Object { name: e.path.clone(), hash: e.hash.clone() });
            }
            proof {
                assert(r@.map_values(|m: ArchiveMember| member_view(m)) =~= before.push(
                    member_view(r@.last()),
                ));
            }
        } else if !e.is_dir {
            let mut n = lit("objects/");
            crate::text::push_all(&mut n, chars_of(e.hash.as_str()).as_slice());
            r.push(ArchiveMember::Object { name: string_of(n.as_slice()), hash: e.hash.clone() });
            proof {
                assert(r@.map_values(|m: ArchiveMember| member_view(m)) =~= before.push(
                    member_view(r@.last()),
                ));
            }
        }
        i += 1;
    }
    assert(fv.subrange(0, i as int) =~= fv);
    r
}

/// Whether an export member comes from one of the entries: a directory from a
/// directory entry of that path (`.zip` only), an object from a file entry
/// with that hash, named by its path in a `.zip` and `objects/<hash>` in a `.seal`.
pub open spec fn member_of_entries(m: MemberView, files: Seq<FileEntryView>, zip: bool) -> bool {
    match m {
        MemberView::Record(_) => false,
        MemberView::Directory(p) => zip && exists|i: int| 0 <= i < files.len() && files[i].is_dir && files[i].path == p,
        MemberView::Object(n, h) => exists|i: int|
            0 <= i < files.len() && !files[i].is_dir && files[i].hash == h && n == if zip {
                files[i].path
            } else {
                "objects/"@ + h
            },
    }
}

proof fn lemma_entry_members(files: Seq<FileEntryView>, zip: bool)
    ensures
        forall|k: int|
            0 <= k < entry_members(files, zip).len() ==> member_of_entries(
                #[trigger] entry_members(files, zip)[k],
                files,
                zip,
            ),
    decreases files.len(),
{
    if files.len() > 0 {
        let prev = files.drop_last();
        lemma_entry_members(prev, zip);
        let ms = entry_members(files, zip);
        let pm = entry_members(prev, zip);
        let last = files.len() - 1;
        assert(files[last] == files.last());
        assert forall|k: int| 0 <= k < ms.len() implies member_of_entries(#[trigger] ms[k], files, zip) by {
            if k < pm.len() {
                assert(ms[k] == pm[k]);
                assert(member_of_entries(pm[k], prev, zip));
                match pm[k] {
                    MemberView::Record(_) => {},
                    MemberView::Directory(p) => {
                        let i = choose|i: int| 0 <= i < prev.len() && prev[i].is_dir && prev[i].path == p;
                        assert(files[i] == prev[i]);
                    },
                    MemberView::Object(n, h) => {
                        let i = choose|i: int|
                            0 <= i < prev.len() && !prev[i].is_dir && prev[i].hash == h && n == if zip {
                                prev[i].path
                            } else {
                                "objects/"@ + h
                            };
                        assert(files[i] == prev[i]);
                    },
                }
            } else {
                assert(k == pm.len());
            }
        }
    }
}

/// What an export writes, an import reads back: the seal record is stored as
/// `<id>.json`, which an import takes as a seal record, and every other member
/// comes from an entry of the seal, found again by its path in a `.zip` and
/// under the `objects` directory, by its hash, in a `.seal`.
pub proof fn law_import_reads_export(id: Seq<char>, files: Seq<FileEntryView>, zip: bool)
    ensures
        export_members(id, files, zip)[0] == MemberView::Record(id + ".json"@),
        ends_with(id + ".json"@, ".json"@),
        forall|k: int|
            1 <= k < export_members(id, files, zip).len() ==> member_of_entries(
                #[trigger] export_members(id, files, zip)[k],
                files,
                zip,
            ),
{
    let ms = export_members(id, files, zip);
    lemma_entry_members(files, zip);
    assert forall|k: int| 1 <= k < ms.len() implies member_of_entries(#[trigger] ms[k], files, zip) by {
        assert(ms[k] == entry_members(files, zip)[k - 1]);
    }
    assert((id + ".json"@).subrange((id + ".json"@).len() - ".json"@.len(), (id + ".json"@).len() as int)
        =~= ".json"@);
}


proof fn lemma_entry_members_complete(files: Seq<FileEntryView>, zip: bool)
    ensures
        zip ==> entry_members(files, zip).len() == files.len(),
        zip ==> forall|i: int| 0 <= i < files.len() ==> #[trigger] entry_members(files, zip)[i] == if files[i].is_dir {
            MemberView::Directory(files[i].path)
        } else {
            MemberView::Object(files[i].path, files[i].hash)
        },
        forall|i: int| 0 <= i < files.len() && !files[i].is_dir ==> entry_members(files, zip).contains(
            MemberView::Object(if zip { files[i].path } else { "objects/"@ + files[i].hash }, #[trigger] files[i].hash),
        ),
        !zip ==> forall|k: int| 0 <= k < entry_members(files, zip).len() ==> !(#[trigger] entry_members(files, zip)[k] is Directory),
    decreases files.len(),
{
    if files.len() > 0 {
        let d = files.drop_last();
        let x = files.last();
        lemma_entry_members_complete(d, zip);
        let pm = entry_members(d, zip);
        let ms = entry_members(files, zip);
        assert(files[files.len() - 1] == x);
        assert forall|i: int| 0 <= i < files.len() && !files[i].is_dir implies ms.contains(
            MemberView::Object(if zip { files[i].path } else { "objects/"@ + files[i].hash }, #[trigger] files[i].hash),
        ) by {
            let m = MemberView::Object(if zip { files[i].path } else { "objects/"@ + files[i].hash }, files[i].hash);
            if i < d.len() {
                assert(files[i] == d[i]);
                assert(d[i].hash == files[i].hash);
                assert(pm.contains(m));
                let k = choose|k: int| 0 <= k < pm.len() && pm[k] == m;
                if zip || !x.is_dir {
                    assert(ms[k] == pm[k]);
                }
            } else {
                assert(ms[pm.len() as int] == m);
            }
        }
        if zip {
            assert forall|i: int| 0 <= i < files.len() implies #[trigger] ms[i] == if files[i].is_dir {
                MemberView::Directory(files[i].path)
            } else {
                MemberView::Object(files[i].path, files[i].hash)
            } by {
                if i < d.len() {
                    assert(files[i] == d[i]);
                    assert(ms[i] == pm[i]);
                }
            }
        } else {
            assert forall|k: int| 0 <= k < ms.len() implies !(#[trigger] ms[k] is Directory) by {
                if k < pm.len() {
                    assert(ms[k] == pm[k]);
                }
            }
        }
    }
}

/// An export is complete: every file of the seal is in it, as its object
/// named by its path in a `.zip` and `objects/<hash>` in a `.seal`. A `.zip`
/// holds, after the record, exactly one member per entry, in the seal's
/// order: a directory for a directory entry, the file's object for a file.
/// A `.seal` holds no directory members.
pub proof fn law_export_holds_every_file(id: Seq<char>, files: Seq<FileEntryView>, zip: bool)
    ensures
        forall|i: int| 0 <= i < files.len() && !files[i].is_dir ==> export_members(id, files, zip).contains(
            MemberView::Object(if zip { files[i].path } else { "objects/"@ + files[i].hash }, #[trigger] files[i].hash),
        ),
        zip ==> export_members(id, files, zip).len() == files.len() + 1,
        zip ==> forall|i: int| 0 <= i < files.len() ==> #[trigger] export_members(id, files, zip)[i + 1] == if files[i].is_dir {
            MemberView::Directory(files[i].path)
        } else {
            MemberView::Object(files[i].path, files[i].hash)
        },
        !zip ==> forall|k: int| 0 <= k < export_members(id, files, zip).len() ==> !(#[trigger] export_members(id, files, zip)[k] is Directory),
{
    lemma_entry_members_complete(files, zip);
    let ms = export_members(id, files, zip);
    let em = entry_members(files, zip);
    assert forall|i: int| 0 <= i < files.len() && !files[i].is_dir implies ms.contains(
        MemberView::Object(if zip { files[i].path } else { "objects/"@ + files[i].hash }, #[trigger] files[i].hash),
    ) by {
        let m = MemberView::Object(if zip { files[i].path } else { "objects/"@ + files[i].hash }, files[i].hash);
        assert(em.contains(m));
        let k = choose|k: int| 0 <= k < em.len() && em[k] == m;
        assert(ms[k + 1] == em[k]);
    }
    if zip {
        assert forall|i: int| 0 <= i < files.len() implies #[trigger] ms[i + 1] == if files[i].is_dir {
            MemberView::Directory(files[i].path)
        } else {
            MemberView::Object(files[i].path, files[i].hash)
        } by {
            assert(ms[i + 1] == em[i]);
        }
    } else {
        assert forall|k: int| 0 <= k < ms.len() implies !(#[trigger] ms[k] is Directory) by {
            if k > 0 {
                assert(ms[k] == em[k - 1]);
            }
        }
    }
}
} // verus!



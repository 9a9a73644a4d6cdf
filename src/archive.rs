//! Reading an archive into the files to extract, and planning and writing
//! the archive that replaces it.
use vstd::prelude::*;
use crate::entry_path::{lemma_destination_stays_inside, sanitize_entry_name, sanitized};
use crate::text::{chars_of, push_char};
use crate::zip_codec::{
    add_directory, archive_listing, entry_count, finish, fits_plain_archive,
    new_writer, open_archive, read_back, read_entry, start_file, writable, write_data, written,
    zip_image, zip_listing, zip_opens, zip_readable, EntryView, ENTRY_LIMIT,
};

verus! {

broadcast use vstd::seq_lib::group_seq_properties;

/// Archive-level failures.
#[derive(Clone, Copy, Debug, PartialEq, Eq, Structural)]
pub enum ArchiveError {
    /// The archive's structure or an entry's compressed stream cannot be read.
    Corrupt,
    /// The new archive could not be written.
    WriteFailed,
}

/// An entry read out of an archive: its name as stored, and its bytes.
pub struct Member {
    pub name: String,
    pub data: Vec<u8>,
}

pub open spec fn members_view(ms: Seq<Member>) -> Seq<(Seq<char>, Seq<u8>)> {
    ms.map_values(|m: Member| (m.name@, m.data@))
}

pub(crate) fn copy_bytes(v: &Vec<u8>) -> (r: Vec<u8>)
    ensures
        r@ == v@,
{
    let mut r: Vec<u8> = Vec::new();
    let mut i: usize = 0;
    while i < v.len()
        invariant
            i <= v.len(),
            r@ == v@.subrange(0, i as int),
        decreases v.len() - i,
    {
        r.push(v[i]);
        i = i + 1;
    }
    assert(r@ =~= v@);
    r
}

/// The bytes of a listed entry that could be read.
pub open spec fn data_of(d: Option<Seq<u8>>) -> Seq<u8> {
    match d {
        Some(v) => v,
        None => Seq::empty(),
    }
}

/// The entries of a readable archive, by name and bytes.
pub open spec fn listed_members(bytes: Seq<u8>) -> Seq<(Seq<char>, Seq<u8>)> {
    zip_listing(bytes).map_values(|e: (Seq<char>, Option<Seq<u8>>)| (e.0, data_of(e.1)))
}

/// Every entry of the archive held in `bytes`, in central-directory order.
/// Succeeds exactly when the archive opens and each entry can be read;
/// otherwise `Corrupt`.
pub fn read_members(bytes: Vec<u8>) -> (r: Result<Vec<Member>, ArchiveError>)
    ensures
        r is Ok <==> zip_readable(bytes@),
        bytes@.len() < 22 ==> r is Err,
        r matches Ok(ms) ==> members_view(ms@) == listed_members(bytes@),
        r matches Err(e) ==> e == ArchiveError::Corrupt,
{
    let ghost b = bytes@;
    let ghost listing = zip_listing(bytes@);
    let mut a = match open_archive(bytes) {
        Ok(a) => a,
        Err(_) => {
            assert(!zip_readable(b));
            return Err(ArchiveError::Corrupt);
        },
    };
    let n = entry_count(&a);
    let mut ms: Vec<Member> = Vec::new();
    let mut i: usize = 0;
    let mut failed = false;
    while i < n && !failed
        invariant
            i <= n,
            listing == zip_listing(b),
            zip_opens(b),
            n == listing.len(),
            archive_listing(a) == listing,
            forall|k: int| 0 <= k < i ==> (#[trigger] listing[k]).1 is Some,
            failed ==> i < n && listing[i as int].1 is None,
            members_view(ms@) == listed_members(b).subrange(0, i as int),
        decreases n - i + (if failed { 0int } else { 1int }),
    {
        match read_entry(&mut a, i) {
            Ok((name, data)) => {
                let ghost before = members_view(ms@);
                ms.push(Member { name, data });
                assert(members_view(ms@) =~= before.push(listed_members(b)[i as int]));
                assert(listed_members(b).subrange(0, i + 1) =~= listed_members(b).subrange(
                    0,
                    i as int,
                ).push(listed_members(b)[i as int]));
                i = i + 1;
            },
            Err(_) => {
                failed = true;
            },
        }
    }
    if failed {
        assert(!zip_readable(b)) by {
            assert(zip_listing(b)[i as int].1 is None);
        }
        return Err(ArchiveError::Corrupt);
    }
    assert(listed_members(b).subrange(0, n as int) =~= listed_members(b));
    assert forall|k: int| 0 <= k < zip_listing(b).len() implies (#[trigger] zip_listing(b)[k]).1 is Some by {
        assert(listing[k].1 is Some);
    }
    assert(zip_readable(b));
    Ok(ms)
}

/// A name that ends in a separator denotes a directory entry.
pub open spec fn is_dir_name(n: Seq<char>) -> bool {
    n.len() > 0 && (n.last() == '/' || n.last() == '\\')
}

/// What an entry becomes on extraction: the relative destination and its
/// bytes; directory entries and entries with an unsafe name become nothing.
pub open spec fn extracted_entry(m: (Seq<char>, Seq<u8>)) -> Option<(Seq<char>, Seq<u8>)> {
    if is_dir_name(m.0) {
        None
    } else {
        match sanitized(m.0) {
            Some(p) => Some((p, m.1)),
            None => None,
        }
    }
}

/// The name of an entry that is skipped as unsafe.
pub open spec fn unsafe_entry(m: (Seq<char>, Seq<u8>)) -> Option<Seq<char>> {
    if !is_dir_name(m.0) && sanitized(m.0) is None {
        Some(m.0)
    } else {
        None
    }
}

pub open spec fn extracted_spec(ms: Seq<(Seq<char>, Seq<u8>)>) -> Seq<(Seq<char>, Seq<u8>)> {
    ms.filter_map(|m: (Seq<char>, Seq<u8>)| extracted_entry(m))
}

pub open spec fn unsafe_spec(ms: Seq<(Seq<char>, Seq<u8>)>) -> Seq<Seq<char>> {
    ms.filter_map(|m: (Seq<char>, Seq<u8>)| unsafe_entry(m))
}

/// A file to write into the workspace, at a path relative to its root.
pub struct ExtractedFile {
    pub path: String,
    pub data: Vec<u8>,
}

pub open spec fn files_view(fs: Seq<ExtractedFile>) -> Seq<(Seq<char>, Seq<u8>)> {
    fs.map_values(|f: ExtractedFile| (f.path@, f.data@))
}

/// The files an archive extracts to, and the entries skipped as unsafe.
pub struct Extraction {
    pub files: Vec<ExtractedFile>,
    pub unsafe_names: Vec<String>,
}

pub open spec fn names_view(v: Seq<String>) -> Seq<Seq<char>> {
    v.map_values(|s: String| s@)
}

/// Decides, entry by entry in archive order, what extraction writes:
/// directory entries are skipped (directories are made as files need
/// them), an entry whose name would leave the workspace is skipped and
/// reported, and every other entry is written at its sanitized path with
/// its bytes unchanged.
pub fn plan_extraction(members: &Vec<Member>) -> (r: Extraction)
    ensures
        files_view(r.files@) == extracted_spec(members_view(members@)),
        names_view(r.unsafe_names@) == unsafe_spec(members_view(members@)),
{
    let ghost ms = members_view(members@);
    let ghost f = |m: (Seq<char>, Seq<u8>)| extracted_entry(m);
    let ghost g = |m: (Seq<char>, Seq<u8>)| unsafe_entry(m);
    let mut files: Vec<ExtractedFile> = Vec::new();
    let mut unsafe_names: Vec<String> = Vec::new();
    let mut i: usize = 0;
    assert(ms.subrange(0, 0) =~= Seq::<(Seq<char>, Seq<u8>)>::empty());
    while i < members.len()
        invariant
            i <= members.len(),
            ms == members_view(members@),
            f == (|m: (Seq<char>, Seq<u8>)| extracted_entry(m)),
            g == (|m: (Seq<char>, Seq<u8>)| unsafe_entry(m)),
            files_view(files@) == ms.subrange(0, i as int).filter_map(f),
            names_view(unsafe_names@) == ms.subrange(0, i as int).filter_map(g),
        decreases members.len() - i,
    {
        let m = &members[i];
        let ghost mv = (m.name@, m.data@);
        let ghost pre = ms.subrange(0, i as int);
        assert(ms.subrange(0, i + 1) =~= pre.push(mv));
        assert(pre.push(mv).drop_last() =~= pre);
        assert(pre.push(mv).last() == mv);
        let ghost fv = files_view(files@);
        let ghost nv = names_view(unsafe_names@);
        let name = chars_of(m.name.as_str());
        let is_dir = name.len() > 0 && (name[name.len() - 1] == '/' || name[name.len() - 1] == '\\');
        if !is_dir {
            match sanitize_entry_name(m.name.as_str()) {
                Some(p) => {
                    let data = copy_bytes(&m.data);
                    files.push(ExtractedFile { path: p, data });
                    assert(files_view(files@) =~= fv + seq![(p@, m.data@)]);
                    assert(names_view(unsafe_names@) =~= nv);
                },
                None => {
                    unsafe_names.push(m.name.clone());
                    assert(names_view(unsafe_names@) =~= nv + seq![m.name@]);
                    assert(files_view(files@) =~= fv);
                },
            }
        } else {
            assert(files_view(files@) =~= fv);
            assert(names_view(unsafe_names@) =~= nv);
        }
        i = i + 1;
    }
    assert(ms.subrange(0, members.len() as int) =~= ms);
    Extraction { files, unsafe_names }
}

/// Reads the archive held in `bytes` and plans its extraction. Succeeds
/// exactly when the archive is readable, whatever its entry names: an
/// unsafe name only skips its entry.
pub fn unzip(bytes: Vec<u8>) -> (r: Result<Extraction, ArchiveError>)
    ensures
        r is Ok <==> zip_readable(bytes@),
        bytes@.len() < 22 ==> r is Err,
        r matches Ok(x) ==> files_view(x.files@) == extracted_spec(listed_members(bytes@))
            && names_view(x.unsafe_names@) == unsafe_spec(listed_members(bytes@)),
        r matches Err(e) ==> e == ArchiveError::Corrupt,
{
    let members = read_members(bytes)?;
    Ok(plan_extraction(&members))
}

/// A file or directory of the workspace, at a path relative to its root
/// with `/` separators, with the bytes of a file.
pub struct WorkspaceItem {
    pub path: String,
    pub is_dir: bool,
    pub data: Vec<u8>,
}

pub open spec fn items_view(items: Seq<WorkspaceItem>) -> Seq<EntryView> {
    items.map_values(|it: WorkspaceItem| (it.path@, it.is_dir, it.data@))
}

/// `s` lies inside the directory `d`.
pub open spec fn is_under(s: Seq<char>, d: Seq<char>) -> bool {
    d.len() < s.len() && s.subrange(0, d.len() as int) == d && s[d.len() as int] == '/'
}

/// Some item lies inside the directory `d`.
pub open spec fn has_child(items: Seq<EntryView>, d: Seq<char>) -> bool {
    exists|j: int| 0 <= j < items.len() && is_under(#[trigger] items[j].0, d)
}

/// The archive entry an item becomes: a file as it is, an empty directory
/// as a directory entry whose name ends in `/`; a directory with contents
/// and the root itself (the empty path) become none.
pub open spec fn packed_entry(items: Seq<EntryView>, it: EntryView) -> Option<EntryView> {
    if it.0.len() == 0 {
        None
    } else if it.1 {
        if has_child(items, it.0) {
            None
        } else {
            Some((it.0.push('/'), true, Seq::empty()))
        }
    } else {
        Some((it.0, false, it.2))
    }
}

/// `a` comes before `b` in lexicographic order of character codes.
pub open spec fn name_lt(a: Seq<char>, b: Seq<char>) -> bool
    decreases a.len(),
{
    if b.len() == 0 {
        false
    } else if a.len() == 0 {
        true
    } else if (a[0] as u32) != (b[0] as u32) {
        (a[0] as u32) < (b[0] as u32)
    } else {
        name_lt(a.drop_first(), b.drop_first())
    }
}

/// `e` placed into `s` after every entry whose name does not come after its own.
pub open spec fn insert_by_name(s: Seq<EntryView>, e: EntryView) -> Seq<EntryView>
    decreases s.len(),
{
    if s.len() == 0 {
        seq![e]
    } else if name_lt(e.0, s.last().0) {
        insert_by_name(s.drop_last(), e).push(s.last())
    } else {
        s.push(e)
    }
}

/// The entries of `s` ordered by name; entries of equal name keep their order.
pub open spec fn sort_by_name(s: Seq<EntryView>) -> Seq<EntryView>
    decreases s.len(),
{
    if s.len() == 0 {
        s
    } else {
        insert_by_name(sort_by_name(s.drop_last()), s.last())
    }
}

/// The entries of the new archive, ordered by name.
pub open spec fn pack_spec(items: Seq<EntryView>) -> Seq<EntryView> {
    sort_by_name(items.filter_map(|it: EntryView| packed_entry(items, it)))
}

/// No entry's name comes before the name of an entry ahead of it.
pub open spec fn sorted_by_name(s: Seq<EntryView>) -> bool {
    forall|i: int, j: int| 0 <= i < j < s.len() ==> !name_lt(#[trigger] s[j].0, #[trigger] s[i].0)
}

proof fn lemma_lt_asym(a: Seq<char>, b: Seq<char>)
    ensures
        name_lt(a, b) ==> !name_lt(b, a),
    decreases a.len(),
{
    if a.len() > 0 && b.len() > 0 && (a[0] as u32) == (b[0] as u32) {
        lemma_lt_asym(a.drop_first(), b.drop_first());
    }
}

proof fn lemma_lt_split(a: Seq<char>, m: Seq<char>, c: Seq<char>)
    ensures
        name_lt(a, c) ==> name_lt(a, m) || name_lt(m, c),
    decreases a.len(),
{
    if a.len() > 0 && m.len() > 0 && c.len() > 0 && (a[0] as u32) == (c[0] as u32) && (a[0] as u32)
        == (m[0] as u32) {
        lemma_lt_split(a.drop_first(), m.drop_first(), c.drop_first());
    }
}

proof fn lemma_insert_sorted(s: Seq<EntryView>, e: EntryView)
    requires
        sorted_by_name(s),
    ensures
        sorted_by_name(insert_by_name(s, e)),
        forall|k: int|
            0 <= k < insert_by_name(s, e).len() ==> #[trigger] insert_by_name(s, e)[k] == e
                || s.contains(insert_by_name(s, e)[k]),
    decreases s.len(),
{
    if s.len() == 0 {
    } else if name_lt(e.0, s.last().0) {
        let init = s.drop_last();
        let last = s.last();
        assert(sorted_by_name(init)) by {
            assert forall|i: int, j: int| 0 <= i < j < init.len() implies !name_lt(
                #[trigger] init[j].0,
                #[trigger] init[i].0,
            ) by {
                assert(init[i] == s[i] && init[j] == s[j]);
            }
        }
        lemma_insert_sorted(init, e);
        let r = insert_by_name(init, e);
        let t = r.push(last);
        assert forall|k: int| 0 <= k < r.len() implies !name_lt(last.0, (#[trigger] r[k]).0) by {
            if r[k] == e {
                lemma_lt_asym(e.0, last.0);
            } else {
                assert(init.contains(r[k]));
                let m = choose|m: int| 0 <= m < init.len() && init[m] == r[k];
                assert(s[m] == init[m]);
                assert(!name_lt(s[s.len() - 1].0, s[m].0));
            }
        }
        assert forall|i: int, j: int| 0 <= i < j < t.len() implies !name_lt(
            #[trigger] t[j].0,
            #[trigger] t[i].0,
        ) by {
            if j == r.len() {
                assert(t[j] == last && t[i] == r[i]);
            } else {
                assert(t[j] == r[j] && t[i] == r[i]);
            }
        }
        assert forall|k: int| 0 <= k < t.len() implies #[trigger] t[k] == e || s.contains(t[k]) by {
            if k == r.len() {
                assert(s[s.len() - 1] == t[k]);
            } else {
                assert(t[k] == r[k]);
                if r[k] != e {
                    assert(init.contains(r[k]));
                    let m = choose|m: int| 0 <= m < init.len() && init[m] == r[k];
                    assert(s[m] == init[m]);
                }
            }
        }
    } else {
        let t = s.push(e);
        let last = s.last();
        assert forall|i: int, j: int| 0 <= i < j < t.len() implies !name_lt(
            #[trigger] t[j].0,
            #[trigger] t[i].0,
        ) by {
            if j == s.len() {
                assert(t[i] == s[i]);
                if i < s.len() - 1 {
                    assert(!name_lt(s[s.len() - 1].0, s[i].0));
                    lemma_lt_split(e.0, last.0, s[i].0);
                }
            } else {
                assert(t[j] == s[j] && t[i] == s[i]);
            }
        }
        assert forall|k: int| 0 <= k < t.len() implies #[trigger] t[k] == e || s.contains(t[k]) by {
            if k < s.len() {
                assert(t[k] == s[k]);
            }
        }
    }
}

proof fn lemma_sort_sorted(s: Seq<EntryView>)
    ensures
        sorted_by_name(sort_by_name(s)),
    decreases s.len(),
{
    if s.len() > 0 {
        lemma_sort_sorted(s.drop_last());
        lemma_insert_sorted(sort_by_name(s.drop_last()), s.last());
    }
}

/// Every entry holds at most `ENTRY_LIMIT` bytes.
pub open spec fn all_fit(s: Seq<EntryView>) -> bool {
    forall|k: int| 0 <= k < s.len() ==> (#[trigger] s[k]).2.len() <= ENTRY_LIMIT
}

/// A directory entry is named with a trailing `/` and holds no bytes.
pub open spec fn entry_shape(e: EntryView) -> bool {
    e.1 ==> e.0.len() > 0 && e.0.last() == '/' && e.2.len() == 0
}

proof fn lemma_insert_keeps(s: Seq<EntryView>, e: EntryView, pred: spec_fn(EntryView) -> bool)
    requires
        forall|k: int| 0 <= k < s.len() ==> pred(#[trigger] s[k]),
        pred(e),
    ensures
        forall|k: int| 0 <= k < insert_by_name(s, e).len() ==> pred(#[trigger] insert_by_name(s, e)[k]),
    decreases s.len(),
{
    if s.len() > 0 && name_lt(e.0, s.last().0) {
        let init = s.drop_last();
        assert forall|k: int| 0 <= k < init.len() implies pred(#[trigger] init[k]) by {
            assert(init[k] == s[k]);
        }
        lemma_insert_keeps(init, e, pred);
        let r = insert_by_name(init, e);
        assert(pred(s[s.len() - 1]));
        assert forall|k: int| 0 <= k < r.push(s.last()).len() implies pred(#[trigger] r.push(s.last())[k]) by {
            if k < r.len() {
                assert(r.push(s.last())[k] == r[k]);
            }
        }
    } else if s.len() > 0 {
        assert forall|k: int| 0 <= k < s.push(e).len() implies pred(#[trigger] s.push(e)[k]) by {
            if k < s.len() {
                assert(s.push(e)[k] == s[k]);
            }
        }
    }
}

proof fn lemma_insert_at(s: Seq<EntryView>, e: EntryView, j: int)
    requires
        0 <= j <= s.len(),
        forall|k: int| j <= k < s.len() ==> name_lt(e.0, (#[trigger] s[k]).0),
        j == 0 || !name_lt(e.0, s[j - 1].0),
    ensures
        insert_by_name(s, e) == s.insert(j, e),
    decreases s.len(),
{
    if s.len() == 0 {
        assert(s.insert(0, e) =~= seq![e]);
    } else if j == s.len() {
        assert(s.insert(j, e) =~= s.push(e));
    } else {
        let init = s.drop_last();
        assert(name_lt(e.0, s[s.len() - 1].0));
        assert forall|k: int| j <= k < init.len() implies name_lt(e.0, (#[trigger] init[k]).0) by {
            assert(init[k] == s[k]);
        }
        if j > 0 {
            assert(init[j - 1] == s[j - 1]);
        }
        lemma_insert_at(init, e, j);
        assert(init.insert(j, e).push(s.last()) =~= s.insert(j, e));
    }
}

/// An entry of the archive to write.
pub struct PackEntry {
    pub name: String,
    pub is_dir: bool,
    pub data: Vec<u8>,
}

pub open spec fn pack_view(es: Seq<PackEntry>) -> Seq<EntryView> {
    es.map_values(|e: PackEntry| (e.name@, e.is_dir, e.data@))
}

fn is_under_exec(s: &Vec<char>, d: &Vec<char>) -> (r: bool)
    ensures
        r == is_under(s@, d@),
{
    if d.len() >= s.len() {
        return false;
    }
    let mut i: usize = 0;
    while i < d.len()
        invariant
            d.len() < s.len(),
            i <= d.len(),
            forall|k: int| 0 <= k < i ==> s@[k] == d@[k],
        decreases d.len() - i,
    {
        if s[i] != d[i] {
            assert(s@.subrange(0, d.len() as int)[i as int] != d@[i as int]);
            return false;
        }
        i = i + 1;
    }
    assert(s@.subrange(0, d.len() as int) =~= d@);
    s[d.len()] == '/'
}

fn has_child_exec(items: &Vec<WorkspaceItem>, d: &Vec<char>) -> (r: bool)
    ensures
        r == has_child(items_view(items@), d@),
{
    let ghost iv = items_view(items@);
    let mut j: usize = 0;
    while j < items.len()
        invariant
            j <= items.len(),
            iv == items_view(items@),
            forall|k: int| 0 <= k < j ==> !is_under(#[trigger] iv[k].0, d@),
        decreases items.len() - j,
    {
        let s = chars_of(items[j].path.as_str());
        if is_under_exec(&s, d) {
            assert(is_under(iv[j as int].0, d@));
            return true;
        }
        j = j + 1;
    }
    false
}

fn name_lt_exec(a: &Vec<char>, b: &Vec<char>) -> (r: bool)
    ensures
        r == name_lt(a@, b@),
{
    let mut i: usize = 0;
    assert(a@.subrange(0, a.len() as int) =~= a@);
    assert(b@.subrange(0, b.len() as int) =~= b@);
    while i < a.len() && i < b.len()
        invariant
            i <= a.len(),
            i <= b.len(),
            name_lt(a@, b@) == name_lt(a@.subrange(i as int, a.len() as int), b@.subrange(i as int, b.len() as int)),
        decreases a.len() - i,
    {
        let ghost sa = a@.subrange(i as int, a.len() as int);
        let ghost sb = b@.subrange(i as int, b.len() as int);
        assert(sa[0] == a@[i as int] && sb[0] == b@[i as int]);
        if (a[i] as u32) != (b[i] as u32) {
            return (a[i] as u32) < (b[i] as u32);
        }
        assert(sa.drop_first() =~= a@.subrange(i + 1, a.len() as int));
        assert(sb.drop_first() =~= b@.subrange(i + 1, b.len() as int));
        i = i + 1;
    }
    let ghost sa = a@.subrange(i as int, a.len() as int);
    let ghost sb = b@.subrange(i as int, b.len() as int);
    assert(sa.len() == 0 || sb.len() == 0);
    i < b.len()
}

/// Places `e` into `v`, kept in the order `insert_by_name` gives.
fn insert_entry(v: &mut Vec<PackEntry>, e: PackEntry)
    ensures
        pack_view(final(v)@) == insert_by_name(pack_view(old(v)@), (e.name@, e.is_dir, e.data@)),
{
    let ghost ev = (e.name@, e.is_dir, e.data@);
    let ghost sv = pack_view(v@);
    let key = chars_of(e.name.as_str());
    let mut j: usize = v.len();
    while j > 0
        invariant
            j <= v.len(),
            sv == pack_view(v@),
            key@ == ev.0,
            forall|k: int| j <= k < sv.len() ==> name_lt(ev.0, (#[trigger] sv[k]).0),
        ensures
            j <= v.len(),
            forall|k: int| j <= k < sv.len() ==> name_lt(ev.0, (#[trigger] sv[k]).0),
            j == 0 || !name_lt(ev.0, sv[j - 1].0),
        decreases j,
    {
        let other = chars_of(v[j - 1].name.as_str());
        assert(sv[j - 1].0 == other@);
        if !name_lt_exec(&key, &other) {
            break;
        }
        j = j - 1;
    }
    proof {
        lemma_insert_at(sv, ev, j as int);
    }
    v.insert(j, e);
    assert(pack_view(v@) =~= sv.insert(j as int, ev));
}

/// The entries of the archive that replaces the original, from the
/// workspace's items: each file with its bytes, and a directory entry for
/// each empty directory, ordered by name so that the same tree always
/// gives the same archive, whatever order it was walked in.
pub fn pack_plan(items: &Vec<WorkspaceItem>) -> (r: Vec<PackEntry>)
    ensures
        pack_view(r@) == pack_spec(items_view(items@)),
        sorted_by_name(pack_view(r@)),
        forall|k: int| 0 <= k < r@.len() ==> entry_shape(#[trigger] pack_view(r@)[k]),
        all_fit(items_view(items@)) ==> all_fit(pack_view(r@)),
{
    let ghost iv = items_view(items@);
    let ghost f = |it: EntryView| packed_entry(iv, it);
    let mut r: Vec<PackEntry> = Vec::new();
    let mut i: usize = 0;
    assert(iv.subrange(0, 0) =~= Seq::<EntryView>::empty());
    while i < items.len()
        invariant
            i <= items.len(),
            iv == items_view(items@),
            f == (|it: EntryView| packed_entry(iv, it)),
            pack_view(r@) == sort_by_name(iv.subrange(0, i as int).filter_map(f)),
            forall|k: int| 0 <= k < r@.len() ==> entry_shape(#[trigger] pack_view(r@)[k]),
            all_fit(iv) ==> all_fit(pack_view(r@)),
        decreases items.len() - i,
    {
        let it = &items[i];
        let ghost itv = (it.path@, it.is_dir, it.data@);
        let ghost pre = iv.subrange(0, i as int);
        assert(iv.subrange(0, i + 1) =~= pre.push(itv));
        assert(pre.push(itv).drop_last() =~= pre);
        assert(pre.push(itv).last() == itv);
        let ghost rv = pack_view(r@);
        let ghost fm = pre.filter_map(f);
        let p = chars_of(it.path.as_str());
        let entry = if p.len() == 0 {
            None
        } else if it.is_dir {
            if has_child_exec(items, &p) {
                None
            } else {
                let mut name = it.path.clone();
                push_char(&mut name, '/');
                Some(PackEntry { name, is_dir: true, data: Vec::new() })
            }
        } else {
            let data = copy_bytes(&it.data);
            Some(PackEntry { name: it.path.clone(), is_dir: false, data })
        };
        match entry {
            Some(e) => {
                let ghost ev = (e.name@, e.is_dir, e.data@);
                assert(f(itv) == Some(ev));
                assert(pre.push(itv).filter_map(f) == fm + seq![ev]);
                assert((fm + seq![ev]).drop_last() =~= fm);
                assert(sort_by_name(fm + seq![ev]) == insert_by_name(sort_by_name(fm), ev));
                insert_entry(&mut r, e);
                proof {
                    lemma_insert_keeps(rv, ev, |x: EntryView| entry_shape(x));
                    if all_fit(iv) {
                        assert(iv[i as int] == itv);
                        lemma_insert_keeps(rv, ev, |x: EntryView| x.2.len() <= ENTRY_LIMIT);
                    }
                }
            },
            None => {
                assert(f(itv) is None);
                assert(pre.push(itv).filter_map(f) == fm);
            },
        }
        i = i + 1;
    }
    assert(iv.subrange(0, items.len() as int) =~= iv);
    proof {
        lemma_sort_sorted(iv.filter_map(f));
    }
    r
}

/// Writes the workspace's items into a new archive image: the entries of
/// `pack_plan`, in that order, files deflated. It succeeds whenever no file
/// holds more than `ENTRY_LIMIT` bytes, and the image reads back as those
/// entries. The caller puts the image in place of the original archive
/// only once this has succeeded.
pub fn zip(items: &Vec<WorkspaceItem>) -> (r: Result<Vec<u8>, ArchiveError>)
    ensures
        all_fit(items_view(items@)) ==> r is Ok,
        r matches Ok(b) ==> b@ == zip_image(pack_spec(items_view(items@))),
        r matches Ok(b) ==> fits_plain_archive(pack_spec(items_view(items@))) ==> zip_readable(b@)
            && zip_listing(b@) == read_back(pack_spec(items_view(items@))),
        r matches Err(e) ==> e == ArchiveError::WriteFailed,
{
    let plan = pack_plan(items);
    let ghost pv = pack_view(plan@);
    let ghost fits = all_fit(items_view(items@));
    let mut w = new_writer();
    let mut i: usize = 0;
    while i < plan.len()
        invariant
            i <= plan.len(),
            pv == pack_view(plan@),
            pv == pack_spec(items_view(items@)),
            fits == all_fit(items_view(items@)),
            fits ==> all_fit(pv),
            writable(w),
            written(w) == pv.subrange(0, i as int),
            forall|k: int| 0 <= k < pv.len() ==> entry_shape(#[trigger] pv[k]),
        decreases plan.len() - i,
    {
        let e = &plan[i];
        let ghost ev = pv[i as int];
        assert(ev == (e.name@, e.is_dir, e.data@));
        assert(pv.subrange(0, i + 1) =~= pv.subrange(0, i as int).push(ev));
        proof {
            if fits && i > 0 {
                assert(pv[i - 1].2.len() <= ENTRY_LIMIT);
                assert(pv.subrange(0, i as int).last() == pv[i - 1]);
            }
        }
        if e.is_dir {
            assert(entry_shape(pv[i as int]));
            if add_directory(&mut w, e.name.as_str()).is_err() {
                return Err(ArchiveError::WriteFailed);
            }
            assert(e.data@ =~= Seq::<u8>::empty());
            assert(written(w) =~= pv.subrange(0, i as int).push(ev));
        } else {
            if start_file(&mut w, e.name.as_str()).is_err() {
                return Err(ArchiveError::WriteFailed);
            }
            proof {
                if fits {
                    assert(pv[i as int].2.len() <= ENTRY_LIMIT);
                }
            }
            if write_data(&mut w, e.data.as_slice()).is_err() {
                return Err(ArchiveError::WriteFailed);
            }
            assert(written(w) =~= pv.subrange(0, i as int).push(ev));
        }
        i = i + 1;
    }
    assert(pv.subrange(0, plan.len() as int) =~= pv);
    proof {
        if fits && pv.len() > 0 {
            assert(pv[pv.len() - 1].2.len() <= ENTRY_LIMIT);
        }
    }
    match finish(&mut w) {
        Ok(b) => {
            proof {
                if fits_plain_archive(pv) {
                    assert forall|k: int| 0 <= k < zip_listing(b@).len() implies (#[trigger] zip_listing(
                        b@,
                    )[k]).1 is Some by {
                        assert(read_back(pv)[k].1 == Some(pv[k].2));
                    }
                }
            }
            Ok(b)
        },
        Err(_) => Err(ArchiveError::WriteFailed),
    }
}

/// An archive of files alone, each named by a plain relative path that
/// extraction keeps as it is.
pub open spec fn is_plain_archive(ms: Seq<(Seq<char>, Seq<u8>)>) -> bool {
    forall|i: int|
        0 <= i < ms.len() ==> !is_dir_name(ms[i].0) && #[trigger] sanitized(ms[i].0) == Some(ms[i].0)
}

/// The workspace as extraction leaves it: one file per extracted entry.
pub open spec fn as_workspace(files: Seq<(Seq<char>, Seq<u8>)>) -> Seq<EntryView> {
    files.map_values(|f: (Seq<char>, Seq<u8>)| (f.0, false, f.1))
}

proof fn lemma_extract_plain(ms: Seq<(Seq<char>, Seq<u8>)>)
    requires
        is_plain_archive(ms),
    ensures
        extracted_spec(ms) == ms,
        unsafe_spec(ms) == Seq::<Seq<char>>::empty(),
    decreases ms.len(),
{
    if ms.len() > 0 {
        let init = ms.drop_last();
        assert forall|i: int| 0 <= i < init.len() implies !is_dir_name(init[i].0) && #[trigger] sanitized(
            init[i].0,
        ) == Some(init[i].0) by {
            assert(init[i] == ms[i]);
        }
        lemma_extract_plain(init);
        let m = ms[ms.len() - 1];
        assert(!is_dir_name(m.0) && sanitized(m.0) == Some(m.0));
        assert(extracted_entry(m) == Some(m));
        assert(unsafe_entry(m) is None);
        assert(init + seq![m] =~= ms);
    }
}

proof fn lemma_pack_files(w: Seq<EntryView>, s: Seq<EntryView>)
    requires
        forall|i: int| 0 <= i < s.len() ==> (#[trigger] s[i]).0.len() > 0 && !s[i].1,
    ensures
        s.filter_map(|it: EntryView| packed_entry(w, it)) == s,
    decreases s.len(),
{
    if s.len() > 0 {
        let init = s.drop_last();
        assert forall|i: int| 0 <= i < init.len() implies (#[trigger] init[i]).0.len() > 0 && !init[i].1 by {
            assert(init[i] == s[i]);
        }
        lemma_pack_files(w, init);
        let it = s[s.len() - 1];
        assert(packed_entry(w, it) == Some(it));
        assert(init + seq![it] =~= s);
    }
}

/// Extracting a plain archive and repacking the workspace it leaves, with
/// no optimization in between, gives back the same entries: the same
/// names with the same bytes, ordered by name, and nothing is skipped.
pub proof fn lemma_round_trip(ms: Seq<(Seq<char>, Seq<u8>)>)
    requires
        is_plain_archive(ms),
    ensures
        extracted_spec(ms) == ms,
        unsafe_spec(ms) == Seq::<Seq<char>>::empty(),
        pack_spec(as_workspace(extracted_spec(ms))) == sort_by_name(as_workspace(ms)),
{
    lemma_extract_plain(ms);
    let w = as_workspace(ms);
    assert forall|i: int| 0 <= i < w.len() implies (#[trigger] w[i]).0.len() > 0 && !w[i].1 by {
        lemma_destination_stays_inside(ms[i].0);
        assert(sanitized(ms[i].0) == Some(ms[i].0));
    }
    lemma_pack_files(w, w);
}

} // verus!

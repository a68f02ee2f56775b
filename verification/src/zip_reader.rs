//! The entries of a ZIP archive that holds an app bundle.
//!
//! An archive in memory is listed with [`ZipEntries::from_zip_data`]. A reader
//! over something else hands what it learns of the members, as [`ZipRecord`]s,
//! to [`find_app_root`], [`list_member`] and [`list_entries`].
use crate::bytes;
use crate::sparse;
use crate::text;
use vstd::prelude::*;

verus! {

broadcast use vstd::string::group_string_axioms;

/// A single entry extracted from a ZIP archive.
#[derive(Clone, Debug)]
pub enum ZipEntry {
    /// A regular file (content read on demand, not held in memory).
    File {
        /// Path relative to the archive root (forward-slash separated).
        relative_path: String,
        /// Index within the ZIP archive (for on-demand reading).
        zip_index: usize,
        /// Uncompressed file size in bytes.
        size: u64,
        /// Unix file mode / permissions.
        mode: u16,
    },
    /// A symbolic link.
    Symlink {
        /// Path relative to the archive root.
        relative_path: String,
        /// Symlink target path.
        target: String,
        /// Unix symlink mode.
        mode: u16,
    },
    /// A directory.
    Directory {
        /// Path relative to the archive root.
        relative_path: String,
        /// Unix directory mode.
        mode: u16,
    },
}

/// What a [`ZipEntry`] is.
pub enum Entry {
    File { path: Seq<char>, zip_index: usize, size: u64, mode: u16 },
    Symlink { path: Seq<char>, target: Seq<char>, mode: u16 },
    Directory { path: Seq<char>, mode: u16 },
}

impl View for ZipEntry {
    type V = Entry;

    open spec fn view(&self) -> Entry {
        match self {
            ZipEntry::File { relative_path, zip_index, size, mode } => Entry::File {
                path: relative_path@,
                zip_index: *zip_index,
                size: *size,
                mode: *mode,
            },
            ZipEntry::Symlink { relative_path, target, mode } => Entry::Symlink {
                path: relative_path@,
                target: target@,
                mode: *mode,
            },
            ZipEntry::Directory { relative_path, mode } => Entry::Directory {
                path: relative_path@,
                mode: *mode,
            },
        }
    }
}

impl Entry {
    /// The path of this entry relative to the archive root.
    pub open spec fn relative_path(self) -> Seq<char> {
        match self {
            Entry::File { path, .. } => path,
            Entry::Symlink { path, .. } => path,
            Entry::Directory { path, .. } => path,
        }
    }
}

/// What a list of entries is.
pub open spec fn entries_view(items: Seq<ZipEntry>) -> Seq<Entry> {
    Seq::new(items.len(), |i: int| items[i]@)
}

impl ZipEntry {
    /// The relative path of this entry.
    pub fn relative_path(&self) -> (r: &String)
        ensures
            r@ == self@.relative_path(),
    {
        match self {
            ZipEntry::File { relative_path, .. } => relative_path,
            ZipEntry::Symlink { relative_path, .. } => relative_path,
            ZipEntry::Directory { relative_path, .. } => relative_path,
        }
    }
}

// ---------------------------------------------------------------------------
// Members of an archive
// ---------------------------------------------------------------------------

/// What the archive says of one of its members.
#[derive(Clone, Debug)]
pub struct ZipRecord {
    /// The full name within the archive.
    pub name: String,
    pub is_dir: bool,
    pub is_symlink: bool,
    /// The Unix mode, where the archive has one.
    pub unix_mode: Option<u32>,
    /// Uncompressed size in bytes.
    pub size: u64,
}

/// What a [`ZipRecord`] says.
pub struct MemberInfo {
    pub name: Seq<char>,
    pub is_dir: bool,
    pub is_symlink: bool,
    pub unix_mode: Option<u32>,
    pub size: u64,
}

impl View for ZipRecord {
    type V = MemberInfo;

    open spec fn view(&self) -> MemberInfo {
        MemberInfo {
            name: self.name@,
            is_dir: self.is_dir,
            is_symlink: self.is_symlink,
            unix_mode: self.unix_mode,
            size: self.size,
        }
    }
}

/// A member of an archive: what the archive says of it, and its content, where
/// that can be read.
pub struct Member {
    pub info: MemberInfo,
    pub content: Option<Seq<u8>>,
}

impl Member {
    /// The content as text, where it can be read and is UTF-8.
    pub open spec fn text(self) -> Option<Seq<char>> {
        match self.content {
            Some(content) => if vstd::utf8::valid_utf8(content) {
                Some(vstd::utf8::decode_utf8(content))
            } else {
                None
            },
            None => None,
        }
    }
}

/// What a list of records says.
pub open spec fn infos_view(records: Seq<ZipRecord>) -> Seq<MemberInfo> {
    Seq::new(records.len(), |i: int| records[i]@)
}

// ---------------------------------------------------------------------------
// The root of the bundle
// ---------------------------------------------------------------------------

/// The first component of a name, if it ends in `.app`.
pub open spec fn app_dir(name: Seq<char>) -> Option<Seq<char>> {
    let first = text::split_on(name, '/', None)[0];
    if text::ends_with(first, ".app"@) {
        Some(first)
    } else {
        None
    }
}

/// How many bytes a text takes in UTF-8.
pub open spec fn byte_len(text: Seq<char>) -> usize {
    vstd::utf8::encode_utf8(text).len() as usize
}

/// Whether `a` is preferred to `b`: shorter names are, and of equally long ones
/// the one that comes first in lexicographic order.
pub open spec fn preferred(a: Seq<char>, b: Seq<char>) -> bool {
    byte_len(a) < byte_len(b) || (byte_len(a) == byte_len(b) && text::precedes(a, b))
}

/// The preferred `.app` directory among the members, if there is any.
pub open spec fn app_root(members: Seq<MemberInfo>) -> Option<Seq<char>>
    decreases members.len(),
{
    if members.len() == 0 {
        None
    } else {
        let best = app_root(members.drop_last());
        match app_dir(members.last().name) {
            None => best,
            Some(candidate) => if best is None || preferred(candidate, best->0) {
                Some(candidate)
            } else {
                best
            },
        }
    }
}

/// Find the `.app` root directory name inside the ZIP.
///
/// Strategy: iterate over all entries, collect first-level path components
/// ending in `.app`, and pick the **shortest** one; ties are broken by
/// lexicographic order (smallest wins).
pub fn find_app_root(records: &Vec<ZipRecord>) -> (r: Option<String>)
    ensures
        match r {
            Some(root) => app_root(infos_view(records@)) == Some(root@),
            None => app_root(infos_view(records@)) is None,
        },
{
    let ghost all = infos_view(records@);
    let mut best: Option<String> = None;
    let mut i: usize = 0;
    assert(all.take(0) =~= Seq::empty());
    while i < records.len()
        invariant
            i <= records@.len(),
            all == infos_view(records@),
            match best {
                Some(root) => app_root(all.take(i as int)) == Some(root@),
                None => app_root(all.take(i as int)) is None,
            },
        decreases records@.len() - i,
    {
        assert(all.take(i + 1).drop_last() =~= all.take(i as int));
        assert(all.take(i + 1).last() == records@[i as int]@);
        let pieces = text::split(records[i].name.as_str(), '/', None);
        let first = pieces[0].clone();
        assert(text::views(pieces@)[0] == first@);
        if text::has_suffix(first.as_str(), ".app") {
            let is_better: bool = match &best {
                None => true,
                Some(current) => {
                    let new_len: usize = first.as_str().len();
                    let old_len: usize = current.as_str().len();
                    new_len < old_len || (new_len == old_len && text::before(
                        first.as_str(),
                        current.as_str(),
                    ))
                },
            };
            if is_better {
                best = Some(first);
            }
        }
        i += 1;
    }
    assert(all.take(i as int) =~= all);
    best
}

/// Whether some member lies in the `.app` directory called `root`.
pub open spec fn is_candidate(members: Seq<MemberInfo>, root: Seq<char>) -> bool {
    exists|i: int| 0 <= i < members.len() && app_dir((#[trigger] members[i]).name) == Some(root)
}

proof fn lemma_preferred_transitive(a: Seq<char>, b: Seq<char>, c: Seq<char>)
    requires
        preferred(a, b),
        preferred(b, c),
    ensures
        preferred(a, c),
{
    if byte_len(a) == byte_len(b) && byte_len(b) == byte_len(c) {
        text::law_precedes_transitive(a, b, c);
    }
}

/// The root is one of the `.app` directories of the archive, and all others
/// come after it: they are longer, or as long and later in lexicographic order.
/// There is a root wherever there is such a directory.
pub proof fn law_root_is_preferred(members: Seq<MemberInfo>, other: Seq<char>)
    requires
        is_candidate(members, other),
    ensures
        app_root(members) is Some,
        is_candidate(members, app_root(members)->0),
        other == app_root(members)->0 || preferred(app_root(members)->0, other),
    decreases members.len(),
{
    let before = members.drop_last();
    let last = app_dir(members.last().name);
    let i = choose|i: int|
        0 <= i < members.len() && app_dir((#[trigger] members[i]).name) == Some(other);
    if app_root(before) is Some {
        lemma_root_is_candidate(before);
        let j = choose|j: int|
            0 <= j < before.len() && app_dir((#[trigger] before[j]).name) == app_root(before);
        assert(members[j] == before[j]);
    }
    assert(members[members.len() - 1] == members.last());
    if i < members.len() - 1 {
        assert(before[i] == members[i]);
        assert(is_candidate(before, other));
        law_root_is_preferred(before, other);
        if last is Some && preferred(last->0, app_root(before)->0) && other != app_root(before)->0 {
            lemma_preferred_transitive(last->0, app_root(before)->0, other);
        }
    } else {
        assert(last == Some(other));
        if app_root(before) is Some && !preferred(other, app_root(before)->0) && other != app_root(
            before,
        )->0 {
            if byte_len(other) == byte_len(app_root(before)->0) {
                text::law_precedes_total(other, app_root(before)->0);
            }
        }
    }
}

/// No `.app` directory of the archive is shorter than the root, in bytes, and
/// of those that are as long none comes before it in lexicographic order.
pub proof fn law_root_is_the_shortest(members: Seq<MemberInfo>, other: Seq<char>)
    requires
        is_candidate(members, other),
        vstd::utf8::encode_utf8(other).len() <= usize::MAX,
        app_root(members) is Some ==> vstd::utf8::encode_utf8(app_root(members)->0).len()
            <= usize::MAX,
    ensures
        ({
            let root = app_root(members)->0;
            let root_len = vstd::utf8::encode_utf8(root).len();
            let other_len = vstd::utf8::encode_utf8(other).len();
            &&& app_root(members) is Some
            &&& root_len <= other_len
            &&& root_len == other_len && root != other ==> text::precedes(root, other)
        }),
{
    law_root_is_preferred(members, other);
}

proof fn lemma_root_is_candidate(members: Seq<MemberInfo>)
    requires
        app_root(members) is Some,
    ensures
        is_candidate(members, app_root(members)->0),
    decreases members.len(),
{
    let before = members.drop_last();
    assert(members[members.len() - 1] == members.last());
    if app_root(before) is Some {
        lemma_root_is_candidate(before);
        let j = choose|j: int|
            0 <= j < before.len() && app_dir((#[trigger] before[j]).name) == app_root(before);
        assert(members[j] == before[j]);
    }
}

/// The root does not depend on the order of the members, nor on how often a
/// directory occurs: archives with the same `.app` directories have the same
/// root.
pub proof fn law_root_ignores_order(a: Seq<MemberInfo>, b: Seq<MemberInfo>)
    requires
        forall|root: Seq<char>| #[trigger] is_candidate(a, root) <==> is_candidate(b, root),
    ensures
        app_root(a) == app_root(b),
{
    if app_root(a) is Some {
        lemma_root_is_candidate(a);
        assert(is_candidate(b, app_root(a)->0));
        law_root_is_preferred(b, app_root(a)->0);
    }
    if app_root(b) is Some {
        lemma_root_is_candidate(b);
        assert(is_candidate(a, app_root(b)->0));
        law_root_is_preferred(a, app_root(b)->0);
    }
    if app_root(a) is Some && app_root(b) is Some && app_root(a) != app_root(b) {
        let x = app_root(a)->0;
        let y = app_root(b)->0;
        lemma_preferred_transitive(x, y, x);
        text::law_precedes_irreflexive(x);
    }
}

// ---------------------------------------------------------------------------
// Entries below the root
// ---------------------------------------------------------------------------

/// What becomes of a member: nothing, where it does not lie below the root; an
/// entry; or a symbolic link whose target is still to be read.
pub enum Listing {
    Skipped,
    Entry(ZipEntry),
    Link { relative_path: String, mode: u16 },
}

/// What a [`Listing`] is.
pub enum Listed {
    Skipped,
    Entry(Entry),
    Link { path: Seq<char>, mode: u16 },
}

impl View for Listing {
    type V = Listed;

    open spec fn view(&self) -> Listed {
        match self {
            Listing::Skipped => Listed::Skipped,
            Listing::Entry(entry) => Listed::Entry(entry@),
            Listing::Link { relative_path, mode } => Listed::Link {
                path: relative_path@,
                mode: *mode,
            },
        }
    }
}

/// The low sixteen bits of a mode, or of `default` where there is none.
pub open spec fn mode_or(unix_mode: Option<u32>, default: u32) -> u16 {
    match unix_mode {
        Some(mode) => (mode % 0x1_0000) as u16,
        None => (default % 0x1_0000) as u16,
    }
}

/// What becomes of the member with the given index: its path is what follows
/// the root and a slash, without slashes at the end.
pub open spec fn listed(root: Seq<char>, index: usize, info: MemberInfo) -> Listed {
    let prefix = root + "/"@;
    if !text::starts_with(info.name, prefix) || info.name.len() == prefix.len() {
        Listed::Skipped
    } else {
        let path = text::without_trailing(info.name.skip(prefix.len() as int), '/');
        if info.is_dir {
            Listed::Entry(Entry::Directory { path, mode: mode_or(info.unix_mode, 0o755) })
        } else if info.is_symlink {
            Listed::Link { path, mode: mode_or(info.unix_mode, 0o777) }
        } else {
            Listed::Entry(
                Entry::File {
                    path,
                    zip_index: index,
                    size: info.size,
                    mode: mode_or(info.unix_mode, 0o644),
                },
            )
        }
    }
}

fn low_mode(unix_mode: Option<u32>, default: u32) -> (r: u16)
    ensures
        r == mode_or(unix_mode, default),
{
    let mode: u32 = match unix_mode {
        Some(mode) => mode,
        None => default,
    };
    (mode % 0x1_0000) as u16
}

/// Decides what becomes of the member with the given index.
pub fn list_member(root: &str, index: usize, record: &ZipRecord) -> (r: Listing)
    ensures
        r@ == listed(root@, index, record@),
{
    let prefix = text::concat(root, "/");
    let name = record.name.as_str();
    let prefix_len: usize = text::chars_of(prefix.as_str()).len();
    let name_len: usize = text::chars_of(name).len();
    if !text::has_prefix(name, prefix.as_str()) || name_len == prefix_len {
        return Listing::Skipped;
    }
    let rest = text::rest_of(name, prefix_len);
    let relative_path = text::trim_end_matches(rest.as_str(), '/');
    if record.is_dir {
        Listing::Entry(
            ZipEntry::Directory { relative_path, mode: low_mode(record.unix_mode, 0o755) },
        )
    } else if record.is_symlink {
        Listing::Link { relative_path, mode: low_mode(record.unix_mode, 0o777) }
    } else {
        Listing::Entry(
            ZipEntry::File {
                relative_path,
                zip_index: index,
                size: record.size,
                mode: low_mode(record.unix_mode, 0o644),
            },
        )
    }
}

/// The target with the given index, if there is one.
pub open spec fn target_at(targets: Seq<Option<Seq<char>>>, index: int) -> Option<Seq<char>> {
    if index < targets.len() {
        targets[index]
    } else {
        None
    }
}

/// The entries below `root`, in archive order, or nothing where the target of
/// a symbolic link among them is missing.
pub open spec fn entries_below(
    root: Seq<char>,
    infos: Seq<MemberInfo>,
    targets: Seq<Option<Seq<char>>>,
) -> Option<Seq<Entry>>
    decreases infos.len(),
{
    if infos.len() == 0 {
        Some(Seq::empty())
    } else {
        let index = infos.len() - 1;
        match entries_below(root, infos.drop_last(), targets) {
            None => None,
            Some(before) => match listed(root, index as usize, infos.last()) {
                Listed::Skipped => Some(before),
                Listed::Entry(entry) => Some(before.push(entry)),
                Listed::Link { path, mode } => match target_at(targets, index) {
                    Some(target) => Some(before.push(Entry::Symlink { path, target, mode })),
                    None => None,
                },
            },
        }
    }
}

/// The entries below `root`, or why there are none.
pub open spec fn some_entries_below(
    root: Seq<char>,
    infos: Seq<MemberInfo>,
    targets: Seq<Option<Seq<char>>>,
) -> Result<Seq<Entry>, ZipError> {
    match entries_below(root, infos, targets) {
        None => Err(ZipError::SymlinkTarget),
        Some(entries) => if entries.len() == 0 {
            Err(ZipError::NoEntries)
        } else {
            Ok(entries)
        },
    }
}

/// Where the target of a link is missing, the list of entries is too.
proof fn lemma_missing_target(
    root: Seq<char>,
    infos: Seq<MemberInfo>,
    targets: Seq<Option<Seq<char>>>,
    i: int,
)
    requires
        0 <= i <= infos.len(),
        entries_below(root, infos.take(i), targets) is None,
    ensures
        entries_below(root, infos, targets) is None,
    decreases infos.len() - i,
{
    if i < infos.len() {
        assert(infos.take(i + 1).drop_last() =~= infos.take(i));
        lemma_missing_target(root, infos, targets, i + 1);
    } else {
        assert(infos.take(i) =~= infos);
    }
}

/// Only the targets of links below the root matter.
proof fn lemma_targets_of_links(
    root: Seq<char>,
    infos: Seq<MemberInfo>,
    a: Seq<Option<Seq<char>>>,
    b: Seq<Option<Seq<char>>>,
)
    requires
        forall|i: int|
            0 <= i < infos.len() && listed(root, i as usize, #[trigger] infos[i]) is Link
                ==> target_at(a, i) == target_at(b, i),
    ensures
        entries_below(root, infos, a) == entries_below(root, infos, b),
    decreases infos.len(),
{
    if infos.len() > 0 {
        let before = infos.drop_last();
        assert forall|i: int|
            0 <= i < before.len() && listed(
                root,
                i as usize,
                #[trigger] before[i],
            ) is Link implies target_at(a, i) == target_at(b, i) by {
            assert(before[i] == infos[i]);
        }
        lemma_targets_of_links(root, before, a, b);
        assert(infos[infos.len() - 1] == infos.last());
    }
}

/// The texts in a list of optional ones.
pub open spec fn targets_view(targets: Seq<Option<String>>) -> Seq<Option<Seq<char>>> {
    Seq::new(
        targets.len(),
        |i: int|
            match targets[i] {
                Some(target) => Some(target@),
                None => None,
            },
    )
}

/// Lists the entries below `root`. Each symbolic link there needs its target at
/// its own index; the other targets are not looked at.
pub fn list_entries(root: &str, records: &Vec<ZipRecord>, targets: &Vec<Option<String>>) -> (r:
    Result<Vec<ZipEntry>, ZipError>)
    ensures
        match some_entries_below(root@, infos_view(records@), targets_view(targets@)) {
            Ok(entries) => r is Ok && entries_view(r->Ok_0@) == entries,
            Err(e) => r is Err && r->Err_0 == e,
        },
{
    let ghost all = infos_view(records@);
    let ghost texts = targets_view(targets@);
    let mut items: Vec<ZipEntry> = Vec::new();
    let mut i: usize = 0;
    assert(all.take(0) =~= Seq::empty());
    assert(entries_view(items@) =~= Seq::empty());
    while i < records.len()
        invariant
            i <= records@.len(),
            all == infos_view(records@),
            texts == targets_view(targets@),
            entries_below(root@, all.take(i as int), texts) == Some(entries_view(items@)),
        decreases records@.len() - i,
    {
        let ghost before = entries_view(items@);
        assert(all.take(i + 1).drop_last() =~= all.take(i as int));
        assert(all.take(i + 1).last() == records@[i as int]@);
        match list_member(root, i, &records[i]) {
            Listing::Skipped => {},
            Listing::Entry(entry) => {
                let ghost added = entry@;
                items.push(entry);
                assert(entries_view(items@) =~= before.push(added));
            },
            Listing::Link { relative_path, mode } => {
                let target: Option<String> = if i < targets.len() {
                    targets[i].clone()
                } else {
                    None
                };
                match target {
                    Some(target) => {
                        let entry = ZipEntry::Symlink { relative_path, target, mode };
                        let ghost added = entry@;
                        items.push(entry);
                        assert(entries_view(items@) =~= before.push(added));
                    },
                    None => {
                        proof {
                            assert(entries_below(root@, all.take(i + 1), texts) is None);
                            lemma_missing_target(root@, all, texts, i + 1);
                        }
                        return Err(ZipError::SymlinkTarget);
                    },
                }
            },
        }
        i += 1;
    }
    assert(all.take(i as int) =~= all);
    if items.len() == 0 {
        return Err(ZipError::NoEntries);
    }
    Ok(items)
}

/// Every file entry points to the archive member it was listed from: reading
/// the member with its index gives the content of the file at its path.
pub proof fn law_files_point_to_their_members(
    root: Seq<char>,
    infos: Seq<MemberInfo>,
    targets: Seq<Option<Seq<char>>>,
    i: int,
)
    requires
        infos.len() <= usize::MAX,
        entries_below(root, infos, targets) is Some,
        0 <= i < entries_below(root, infos, targets)->0.len(),
        entries_below(root, infos, targets)->0[i] is File,
    ensures
        ({
            let entry = entries_below(root, infos, targets)->0[i];
            &&& entry->zip_index < infos.len()
            &&& listed(root, entry->zip_index, infos[entry->zip_index as int]) == Listed::Entry(
                entry,
            )
        }),
    decreases infos.len(),
{
    let before = infos.drop_last();
    let entry = entries_below(root, infos, targets)->0[i];
    if i < entries_below(root, before, targets)->0.len() {
        assert(entry == entries_below(root, before, targets)->0[i]);
        law_files_point_to_their_members(root, before, targets, i);
        assert(before[entry->zip_index as int] == infos[entry->zip_index as int]);
    } else {
        assert(infos[infos.len() - 1] == infos.last());
    }
}

/// Whether a member lies below the root: its name is the root, a slash and
/// something more.
pub open spec fn lies_below(root: Seq<char>, name: Seq<char>) -> bool {
    &&& root.len() + 1 < name.len()
    &&& name.take(root.len() as int) == root
    &&& name[root.len() as int] == '/'
}

/// Whether `path` is what a name has behind the root and a slash, but for
/// slashes at the end.
pub open spec fn is_path_of(path: Seq<char>, root: Seq<char>, name: Seq<char>) -> bool {
    let rest = name.skip(root.len() as int + 1);
    &&& path.len() <= rest.len()
    &&& rest.take(path.len() as int) == path
    &&& forall|i: int| path.len() <= i < rest.len() ==> rest[i] == '/'
    &&& path.len() > 0 ==> path.last() != '/'
}

/// Whether `mode` has the low sixteen bits of the mode that the archive gives,
/// or is `default` where it gives none.
pub open spec fn is_mode_of(mode: u16, given: Option<u32>, default: u16) -> bool {
    match given {
        Some(given) => mode <= given && (given - mode) % 0x1_0000 == 0,
        None => mode == default,
    }
}

/// Whether `item` is the entry for the member with index `k`.
pub open spec fn is_entry_for(
    item: ZipEntry,
    root: Seq<char>,
    k: int,
    record: ZipRecord,
    target: Option<Seq<char>>,
) -> bool {
    match item {
        ZipEntry::File { relative_path, zip_index, size, mode } => {
            &&& !record.is_dir && !record.is_symlink
            &&& is_path_of(relative_path@, root, record.name@)
            &&& zip_index == k
            &&& size == record.size
            &&& is_mode_of(mode, record.unix_mode, 0o644)
        },
        ZipEntry::Symlink { relative_path, target: found, mode } => {
            &&& !record.is_dir && record.is_symlink
            &&& is_path_of(relative_path@, root, record.name@)
            &&& target == Some(found@)
            &&& is_mode_of(mode, record.unix_mode, 0o777)
        },
        ZipEntry::Directory { relative_path, mode } => {
            &&& record.is_dir
            &&& is_path_of(relative_path@, root, record.name@)
            &&& is_mode_of(mode, record.unix_mode, 0o755)
        },
    }
}

proof fn lemma_without_trailing(text: Seq<char>, c: char)
    ensures
        ({
            let kept = text::without_trailing(text, c);
            &&& kept.len() <= text.len()
            &&& text.take(kept.len() as int) == kept
            &&& forall|i: int| kept.len() <= i < text.len() ==> text[i] == c
            &&& kept.len() > 0 ==> kept.last() != c
        }),
    decreases text.len(),
{
    let kept = text::without_trailing(text, c);
    if text.len() > 0 && text.last() == c {
        lemma_without_trailing(text.drop_last(), c);
        assert(text.take(kept.len() as int) =~= text.drop_last().take(kept.len() as int));
        assert forall|i: int| kept.len() <= i < text.len() implies text[i] == c by {
            if i < text.len() - 1 {
                assert(text.drop_last()[i] == c);
            }
        }
    } else {
        assert(text.take(text.len() as int) =~= text);
    }
}

proof fn lemma_mode_of(given: Option<u32>, default: u16)
    ensures
        is_mode_of(mode_or(given, default as u32), given, default),
{
    if let Some(mode) = given {
        assert(mode == mode_or(given, default as u32) + 0x1_0000 * (mode / 0x1_0000));
    }
}

/// A member becomes its entry where it lies below the root, but a symbolic link
/// waits for its target, and any other member is skipped.
pub proof fn law_member_becomes_its_entry(root: Seq<char>, k: int, record: ZipRecord)
    requires
        0 <= k <= usize::MAX,
    ensures
        lies_below(root, record.name@) <==> !(listed(root, k as usize, record@) is Skipped),
        forall|item: ZipEntry, target: Option<Seq<char>>|
            #![trigger is_entry_for(item, root, k, record, target)]
            listed(root, k as usize, record@) == Listed::Entry(item@) ==> is_entry_for(
                item,
                root,
                k,
                record,
                target,
            ),
        forall|item: ZipEntry, target: Seq<char>|
            #![trigger is_entry_for(item, root, k, record, Some(target))]
            (listed(root, k as usize, record@) matches Listed::Link { path, mode } && item@
                == (Entry::Symlink { path, target, mode })) ==> is_entry_for(
                item,
                root,
                k,
                record,
                Some(target),
            ),
{
    let name = record.name@;
    let prefix = root + "/"@;
    let n = root.len() as int;
    reveal_strlit("/");
    if lies_below(root, name) {
        assert(name.take(n + 1) =~= prefix);
    }
    if text::starts_with(name, prefix) && name.len() != prefix.len() {
        assert(name.take(n) =~= prefix.take(n));
        assert(prefix.take(n) =~= root);
        assert(name[n] == prefix[n]);
    }
    lemma_without_trailing(name.skip(n + 1), '/');
    lemma_mode_of(record.unix_mode, 0o644);
    lemma_mode_of(record.unix_mode, 0o755);
    lemma_mode_of(record.unix_mode, 0o777);
}

/// The members that the entries come from, in order.
proof fn lemma_entry_origins(
    root: Seq<char>,
    records: Seq<ZipRecord>,
    targets: Seq<Option<Seq<char>>>,
    items: Seq<ZipEntry>,
) -> (at: Seq<int>)
    requires
        records.len() <= usize::MAX,
        entries_below(root, infos_view(records), targets) == Some(entries_view(items)),
    ensures
        at.len() == items.len(),
        forall|i: int|
            0 <= i < at.len() ==> 0 <= (#[trigger] at[i]) < records.len() && lies_below(
                root,
                records[at[i]].name@,
            ) && is_entry_for(items[i], root, at[i], records[at[i]], target_at(targets, at[i])),
        forall|a: int, b: int| #![trigger at[a], at[b]] 0 <= a < b < at.len() ==> at[a] < at[b],
        forall|k: int|
            0 <= k < records.len() && lies_below(root, (#[trigger] records[k]).name@)
                ==> at.contains(k),
    decreases records.len(),
{
    let infos = infos_view(records);
    if records.len() == 0 {
        assert(entries_view(items).len() == items.len());
        Seq::empty()
    } else {
        let before = records.drop_last();
        let last = records.len() - 1;
        let entries = entries_view(items);
        assert(infos.drop_last() =~= infos_view(before));
        assert(infos.last() == records[last]@);
        assert(records.last() == records[last]);
        law_member_becomes_its_entry(root, last, records[last]);
        let added = !(listed(root, last as usize, records[last]@) is Skipped);
        let prior = entries_below(root, infos_view(before), targets)->0;
        assert(entries.len() == items.len());
        assert(entries_below(root, infos.drop_last(), targets) is Some);
        assert(added ==> entries.len() == prior.len() + 1 && entries.drop_last() =~= prior);
        assert(!added ==> entries == prior);
        let fewer = if added {
            items.drop_last()
        } else {
            items
        };
        assert(entries_view(fewer) =~= prior) by {
            assert forall|i: int| 0 <= i < fewer.len() implies entries_view(fewer)[i]
                == prior[i] by {
                assert(entries[i] == items[i]@);
            }
        }
        let earlier = lemma_entry_origins(root, before, targets, fewer);
        let at = if added {
            earlier.push(last)
        } else {
            earlier
        };
        assert forall|i: int| 0 <= i < at.len() implies 0 <= (#[trigger] at[i]) < records.len()
            && lies_below(root, records[at[i]].name@) && is_entry_for(
            items[i],
            root,
            at[i],
            records[at[i]],
            target_at(targets, at[i]),
        ) by {
            if i < earlier.len() {
                assert(at[i] == earlier[i]);
                assert(before[earlier[i]] == records[earlier[i]]);
                assert(fewer[i] == items[i]);
            } else {
                assert(entries[i] == items[i]@);
                assert(is_entry_for(
                    items[i],
                    root,
                    last,
                    records[last],
                    target_at(targets, last),
                ));
            }
        }
        assert forall|k: int|
            0 <= k < records.len() && lies_below(
                root,
                (#[trigger] records[k]).name@,
            ) implies at.contains(k) by {
            if k < last {
                assert(before[k] == records[k]);
                assert(earlier.contains(k));
                let i = choose|i: int| 0 <= i < earlier.len() && earlier[i] == k;
                assert(at[i] == k);
            } else {
                assert(at[earlier.len() as int] == k);
            }
        }
        assert forall|a: int, b: int|
            #![trigger at[a], at[b]]
            0 <= a < b < at.len() implies at[a] < at[b] by {
            assert(at[a] == earlier[a]);
            if b < earlier.len() {
                assert(at[b] == earlier[b]);
            }
        }
        at
    }
}

/// The entries are the members below the root, each once and in archive order:
/// a directory, a symbolic link with the target that was read for it, or a file
/// with the member's index and its size. Each has the member's path below the
/// root and its mode.
pub proof fn law_entries_are_the_members_below(
    root: Seq<char>,
    records: Seq<ZipRecord>,
    targets: Seq<Option<Seq<char>>>,
    items: Seq<ZipEntry>,
)
    requires
        records.len() <= usize::MAX,
        entries_below(root, infos_view(records), targets) == Some(entries_view(items)),
    ensures
        exists|at: Seq<int>|
            #![trigger at.len()]
            at.len() == items.len() && (forall|i: int|
                0 <= i < at.len() ==> 0 <= (#[trigger] at[i]) < records.len() && lies_below(
                    root,
                    records[at[i]].name@,
                ) && is_entry_for(items[i], root, at[i], records[at[i]], target_at(targets, at[i])))
                && (forall|a: int, b: int|
                #![trigger at[a], at[b]]
                0 <= a < b < at.len() ==> at[a] < at[b]) && (forall|k: int|
                0 <= k < records.len() && lies_below(root, (#[trigger] records[k]).name@)
                    ==> at.contains(k)),
{
    let at = lemma_entry_origins(root, records, targets, items);
    assert(at.len() == items.len());
}

/// Listing fails only where it has to: where a symbolic link below the root has
/// no target.
pub proof fn law_listing_needs_targets(
    root: Seq<char>,
    records: Seq<ZipRecord>,
    targets: Seq<Option<Seq<char>>>,
)
    requires
        records.len() <= usize::MAX,
    ensures
        entries_below(root, infos_view(records), targets) is None <==> exists|k: int|
            0 <= k < records.len() && lies_below(root, (#[trigger] records[k]).name@)
                && records[k].is_symlink && !records[k].is_dir && target_at(targets, k) is None,
    decreases records.len(),
{
    let infos = infos_view(records);
    if records.len() > 0 {
        let before = records.drop_last();
        let last = records.len() - 1;
        assert(infos.drop_last() =~= infos_view(before));
        assert(infos.last() == records[last]@);
        law_member_becomes_its_entry(root, last, records[last]);
        law_listing_needs_targets(root, before, targets);
        if entries_below(root, infos_view(before), targets) is None {
            let k = choose|k: int|
                0 <= k < before.len() && lies_below(root, (#[trigger] before[k]).name@)
                    && before[k].is_symlink && !before[k].is_dir && target_at(targets, k) is None;
            assert(records[k] == before[k]);
        }
        if exists|k: int|
            0 <= k < records.len() && lies_below(root, (#[trigger] records[k]).name@)
                && records[k].is_symlink && !records[k].is_dir && target_at(targets, k) is None {
            let k = choose|k: int|
                0 <= k < records.len() && lies_below(root, (#[trigger] records[k]).name@)
                    && records[k].is_symlink && !records[k].is_dir && target_at(targets, k) is None;
            if k < last {
                assert(before[k] == records[k]);
            }
        }
    }
}

/// The directory that a name gives for a root is the part before its first
/// slash, or all of it, and ends in `.app`; a name gives none exactly where that
/// part does not end so.
pub proof fn law_app_directory_is_the_first_part(name: Seq<char>, part: Seq<char>)
    requires
        !part.contains('/'),
        name == part || (part.len() < name.len() && name.take(part.len() as int) == part
            && name[part.len() as int] == '/'),
    ensures
        ({
            let n = part.len() as int;
            let ends = n >= 4 && part[n - 4] == '.' && part[n - 3] == 'a' && part[n - 2] == 'p'
                && part[n - 1] == 'p';
            app_dir(name) == if ends {
                Some(part)
            } else {
                None
            }
        }),
{
    let n = part.len() as int;
    reveal_strlit(".app");
    text::lemma_first_piece(name, part, '/');
    if text::ends_with(part, ".app"@) {
        assert(part.skip(n - 4)[0] == part[n - 4]);
        assert(part.skip(n - 4)[1] == part[n - 3]);
        assert(part.skip(n - 4)[2] == part[n - 2]);
        assert(part.skip(n - 4)[3] == part[n - 1]);
    }
    if n >= 4 && part[n - 4] == '.' && part[n - 3] == 'a' && part[n - 2] == 'p' && part[n - 1]
        == 'p' {
        assert(part.skip(n - 4) =~= ".app"@);
    }
}

// ---------------------------------------------------------------------------
// Archives in memory
// ---------------------------------------------------------------------------

/// The archive type of the `zip` crate.
#[verifier::external_type_specification]
#[verifier::external_body]
#[verifier::reject_recursive_types(R)]
pub struct ExZipArchive<R>(zip::ZipArchive<R>);

/// A reader over bytes in memory.
#[verifier::external_type_specification]
#[verifier::external_body]
#[verifier::reject_recursive_types(T)]
pub struct ExCursor<T>(std::io::Cursor<T>);

/// The members of an archive in memory, in order; `None` where a member cannot
/// be opened.
pub uninterp spec fn members_of(
    archive: zip::ZipArchive<std::io::Cursor<Vec<u8>>>,
) -> Seq<Option<Member>>;

/// The members of the archive that `data` holds, if it holds one.
pub uninterp spec fn archive_in(data: Seq<u8>) -> Option<Seq<Option<Member>>>;

/// The member with the given index, if there is one that can be opened.
pub open spec fn member_at(members: Seq<Option<Member>>, index: usize) -> Option<Member> {
    if index < members.len() {
        members[index as int]
    } else {
        None
    }
}

/// `zip::ZipArchive::new` reads the directory of the archive that the bytes
/// hold. Whether they hold one, and what its members are, depends on the bytes
/// alone.
#[verifier::external_body]
fn open_archive(data: Vec<u8>) -> (r: Option<zip::ZipArchive<std::io::Cursor<Vec<u8>>>>)
    ensures
        r is Some <==> archive_in(data@) is Some,
        r is Some ==> archive_in(data@) == Some(members_of(r->0)),
{
    zip::ZipArchive::new(std::io::Cursor::new(data)).ok()
}

/// `zip::ZipArchive::len` counts the members.
#[verifier::external_body]
fn member_count(archive: &zip::ZipArchive<std::io::Cursor<Vec<u8>>>) -> (n: usize)
    ensures
        n == members_of(*archive).len(),
{
    archive.len()
}

/// The content of a member as text, if it can be had.
pub open spec fn text_at(members: Seq<Option<Member>>, index: usize) -> Option<Seq<char>> {
    match member_at(members, index) {
        Some(member) => member.text(),
        None => None,
    }
}

/// `zip::ZipArchive::by_index` opens a member, and the accessors of the opened
/// file tell what the archive says of it. The archive keeps its members.
#[verifier::external_body]
fn member_record(
    archive: &mut zip::ZipArchive<std::io::Cursor<Vec<u8>>>,
    index: usize,
) -> (r: Option<ZipRecord>)
    ensures
        members_of(*final(archive)) == members_of(*old(archive)),
        r is Some <==> member_at(members_of(*old(archive)), index) is Some,
        r is Some ==> r->0@ == member_at(members_of(*old(archive)), index)->0.info,
{
    let file = archive.by_index(index).ok()?;
    Some(ZipRecord {
        name: file.name().to_string(),
        is_dir: file.is_dir(),
        is_symlink: file.is_symlink(),
        unix_mode: file.unix_mode(),
        size: file.size(),
    })
}

/// `std::io::Read::read_to_string` on an opened member gives its content as
/// text, or an error where it cannot be read or is not UTF-8. The archive keeps
/// its members.
#[verifier::external_body]
fn member_text(
    archive: &mut zip::ZipArchive<std::io::Cursor<Vec<u8>>>,
    index: usize,
) -> (r: Option<String>)
    ensures
        members_of(*final(archive)) == members_of(*old(archive)),
        r is Some ==> text_at(members_of(*old(archive)), index) == Some(r->0@),
        r is None ==> text_at(members_of(*old(archive)), index) is None,
{
    let mut file = archive.by_index(index).ok()?;
    let mut text = String::new();
    std::io::Read::read_to_string(&mut file, &mut text).ok()?;
    Some(text)
}

/// `std::io::Read::read_to_end` on an opened member gives its content, or the
/// kind and the message of the error that ended the reading. What was read
/// before an error is left unsaid. The archive keeps its members.
#[verifier::external_body]
fn member_content(
    archive: &mut zip::ZipArchive<std::io::Cursor<Vec<u8>>>,
    index: usize,
) -> (r: Option<(Vec<u8>, Option<(std::io::ErrorKind, String)>)>)
    ensures
        members_of(*final(archive)) == members_of(*old(archive)),
        r is Some <==> member_at(members_of(*old(archive)), index) is Some,
        r is Some ==> content_read(r->0) == member_at(members_of(*old(archive)), index)->0.content,
{
    let mut file = archive.by_index(index).ok()?;
    let mut content = Vec::new();
    match std::io::Read::read_to_end(&mut file, &mut content) {
        Ok(_) => Some((content, None)),
        Err(e) => Some((content, Some((e.kind(), e.to_string())))),
    }
}

/// What was read, where no error ended the reading.
pub open spec fn content_read(read: (Vec<u8>, Option<(std::io::ErrorKind, String)>)) -> Option<
    Seq<u8>,
> {
    match read.1 {
        None => Some(read.0@),
        Some(_) => None,
    }
}

/// An opened member, whose content is read from the start to the end.
#[derive(Debug)]
pub struct MemberReader {
    /// What can be read.
    bytes: Vec<u8>,
    /// The error that comes behind it, if any.
    failure: Option<(std::io::ErrorKind, String)>,
    cursor: usize,
}

impl MemberReader {
    #[verifier::type_invariant]
    closed spec fn inv(&self) -> bool {
        self.cursor <= self.bytes@.len()
    }

    /// What is still to be read before the end, or before the error.
    pub closed spec fn ahead(&self) -> Seq<u8> {
        self.bytes@.skip(self.cursor as int)
    }

    /// The kind and the message of the error that reading ends with, if any.
    pub closed spec fn error(&self) -> Option<(std::io::ErrorKind, Seq<char>)> {
        match self.failure {
            Some(failure) => Some((failure.0, failure.1@)),
            None => None,
        }
    }

    /// What reading to the end gives, where it does not end with an error.
    pub open spec fn content(&self) -> Option<Seq<u8>> {
        if self.error() is None {
            Some(self.ahead())
        } else {
            None
        }
    }
}

impl std::io::Read for MemberReader {
    fn read(&mut self, out: &mut [u8]) -> (r: std::io::Result<usize>)
        ensures
            r is Err <==> old(self).error() is Some && old(self).ahead().len() == 0 && old(
                out,
            )@.len() > 0,
            r is Err ==> Some(sparse::failure(r->Err_0)) == old(self).error(),
            r is Err ==> final(out)@ == old(out)@,
            r is Err ==> final(self).ahead() == old(self).ahead(),
            r is Ok ==> r->Ok_0 == (if old(self).ahead().len() < old(out)@.len() {
                old(self).ahead().len()
            } else {
                old(out)@.len()
            }),
            r is Ok ==> final(out)@ == bytes::overwritten(
                old(out)@,
                0,
                old(self).ahead().take(r->Ok_0 as int),
            ),
            r is Ok ==> final(self).ahead() == old(self).ahead().skip(r->Ok_0 as int),
            final(self).error() == old(self).error(),
    {
        proof {
            use_type_invariant(&*self);
        }
        let wanted: usize = out.len();
        let total: usize = self.bytes.len();
        let left: usize = total - self.cursor;
        if left == 0 && wanted > 0 {
            if let Some(failure) = &self.failure {
                return Err(sparse::io_error(failure.0, failure.1.as_str()));
            }
        }
        let n: usize = if left < wanted {
            left
        } else {
            wanted
        };
        let ghost part = self.ahead().take(n as int);
        let mut i: usize = 0;
        while i < n
            invariant
                i <= n,
                n <= wanted,
                total == self.bytes@.len(),
                self.cursor + n <= total,
                part == self.bytes@.skip(self.cursor as int).take(n as int),
                out@.len() == wanted,
                old(out)@.len() == wanted,
                forall|k: int|
                    0 <= k < wanted ==> #[trigger] out@[k] == (if k < i {
                        part[k]
                    } else {
                        old(out)@[k]
                    }),
            decreases n - i,
        {
            out[i] = self.bytes[self.cursor + i];
            i += 1;
        }
        assert(out@ =~= bytes::overwritten(old(out)@, 0, part));
        self.cursor = self.cursor + n;
        assert(self.ahead() =~= old(self).ahead().skip(n as int));
        Ok(n)
    }
}

/// Why the entries of an archive could not be listed.
#[derive(Debug, PartialEq, Eq, Structural)]
pub enum ZipError {
    /// The data is no ZIP archive.
    Malformed,
    /// A member cannot be opened.
    Unreadable,
    /// No member lies in a `.app` directory.
    NoAppRoot,
    /// The target of a symbolic link cannot be read.
    SymlinkTarget,
    /// There is nothing below the root.
    NoEntries,
}

/// Whether all members can be opened.
pub open spec fn all_open(members: Seq<Option<Member>>) -> bool {
    forall|i: int| 0 <= i < members.len() ==> (#[trigger] members[i]) is Some
}

/// The members, where all can be opened.
pub open spec fn opened(members: Seq<Option<Member>>) -> Seq<Member> {
    Seq::new(members.len(), |i: int| members[i]->0)
}

/// What the archive says of its members.
pub open spec fn infos_of(members: Seq<Member>) -> Seq<MemberInfo> {
    Seq::new(members.len(), |i: int| members[i].info)
}

/// The contents of the members as text.
pub open spec fn texts_of(members: Seq<Member>) -> Seq<Option<Seq<char>>> {
    Seq::new(members.len(), |i: int| members[i].text())
}

/// The root of an archive and the entries below it, or why there are none.
pub open spec fn listing_of(members: Seq<Option<Member>>) -> Result<
    (Seq<char>, Seq<Entry>),
    ZipError,
> {
    if !all_open(members) {
        Err(ZipError::Unreadable)
    } else {
        match app_root(infos_of(opened(members))) {
            None => Err(ZipError::NoAppRoot),
            Some(root) => match some_entries_below(
                root,
                infos_of(opened(members)),
                texts_of(opened(members)),
            ) {
                Err(e) => Err(e),
                Ok(entries) => Ok((root, entries)),
            },
        }
    }
}

/// The name of a member, if it can be opened.
pub open spec fn name_of(member: Option<Member>) -> Seq<char> {
    member->0.info.name
}

/// An archive is listed where all its members can be opened, some name starts
/// with a `.app` directory, every link below the root has its content for a
/// target and something lies below the root; and the error says which of these
/// does not hold, in this order.
pub proof fn law_listing_says_what_is_missing(members: Seq<Option<Member>>)
    ensures
        ({
            let unopened = exists|i: int| 0 <= i < members.len() && (#[trigger] members[i]) is None;
            let rooted = exists|i: int|
                0 <= i < members.len() && app_dir(name_of(#[trigger] members[i])) is Some;
            match listing_of(members) {
                Err(ZipError::Unreadable) => unopened,
                Err(ZipError::NoAppRoot) => !unopened && !rooted,
                Err(ZipError::SymlinkTarget) => !unopened && rooted,
                Err(ZipError::NoEntries) => !unopened && rooted,
                Err(ZipError::Malformed) => false,
                Ok((root, entries)) => {
                    &&& !unopened && rooted
                    &&& entries.len() > 0
                    &&& app_root(infos_of(opened(members))) == Some(root)
                    &&& entries_below(root, infos_of(opened(members)), texts_of(opened(members)))
                        == Some(entries)
                },
            }
        }),
{
    let infos = infos_of(opened(members));
    if all_open(members) {
        assert forall|i: int| 0 <= i < members.len() implies infos[i].name == name_of(
            #[trigger] members[i],
        ) by {}
        match app_root(infos) {
            Some(root) => {
                lemma_root_is_candidate(infos);
                let i = choose|i: int|
                    0 <= i < infos.len() && app_dir((#[trigger] infos[i]).name) == Some(root);
                assert(app_dir(name_of(members[i])) is Some);
            },
            None => {
                if exists|i: int|
                    0 <= i < members.len() && app_dir(name_of(#[trigger] members[i])) is Some {
                    let i = choose|i: int|
                        0 <= i < members.len() && app_dir(name_of(#[trigger] members[i])) is Some;
                    assert(app_dir(infos[i].name) == Some(app_dir(infos[i].name)->0));
                    assert(is_candidate(infos, app_dir(infos[i].name)->0));
                    law_root_is_preferred(infos, app_dir(infos[i].name)->0);
                }
            },
        }
    }
}

/// A collection of entries parsed from a ZIP archive in memory.
pub struct ZipEntries {
    /// The root directory name (e.g. "MyApp.app").
    pub root_name: String,
    /// All entries within the root, in ZIP order.
    pub items: Vec<ZipEntry>,
    /// The underlying ZIP archive, kept for reading file contents.
    pub archive: zip::ZipArchive<std::io::Cursor<Vec<u8>>>,
}

impl ZipEntries {
    /// The members of the underlying archive.
    pub open spec fn members(&self) -> Seq<Option<Member>> {
        members_of(self.archive)
    }

    /// Opens the member with the given index, for reading its content. That
    /// the content cannot be read to the end shows when it is read.
    pub fn read_file(&mut self, zip_index: usize) -> (r: Result<MemberReader, ZipError>)
        ensures
            match r {
                Ok(reader) => {
                    &&& member_at(old(self).members(), zip_index) is Some
                    &&& reader.content() == member_at(old(self).members(), zip_index)->0.content
                },
                Err(e) => member_at(old(self).members(), zip_index) is None && e
                    == ZipError::Unreadable,
            },
            final(self).members() == old(self).members(),
            final(self).root_name == old(self).root_name,
            final(self).items == old(self).items,
    {
        match member_content(&mut self.archive, zip_index) {
            Some((bytes, failure)) => {
                let reader = MemberReader { bytes, failure, cursor: 0 };
                assert(reader.ahead() =~= reader.bytes@);
                Ok(reader)
            },
            None => Err(ZipError::Unreadable),
        }
    }

    /// Lists the entries of the archive that `data` holds.
    pub fn from_zip_data(data: &[u8]) -> (r: Result<Self, ZipError>)
        ensures
            match archive_in(data@) {
                None => r is Err && r->Err_0 == ZipError::Malformed,
                Some(members) => match listing_of(members) {
                    Err(e) => r is Err && r->Err_0 == e,
                    Ok((root, entries)) => {
                        &&& r is Ok
                        &&& r->Ok_0.root_name@ == root
                        &&& entries_view(r->Ok_0.items@) == entries
                        &&& r->Ok_0.members() == members
                    },
                },
            },
    {
        let mut archive = match open_archive(bytes::copy_of(data)) {
            Some(archive) => archive,
            None => {
                return Err(ZipError::Malformed);
            },
        };
        let ghost members = members_of(archive);
        let count: usize = member_count(&archive);
        let mut records: Vec<ZipRecord> = Vec::new();
        let mut i: usize = 0;
        while i < count
            invariant
                i <= count,
                count == members.len(),
                members == members_of(archive),
                archive_in(data@) == Some(members),
                records@.len() == i,
                forall|k: int| 0 <= k < i ==> (#[trigger] members[k]) is Some,
                forall|k: int| 0 <= k < i ==> (#[trigger] records@[k])@ == members[k]->0.info,
            decreases count - i,
        {
            match member_record(&mut archive, i) {
                Some(record) => {
                    records.push(record);
                },
                None => {
                    assert(members[i as int] is None);
                    return Err(ZipError::Unreadable);
                },
            }
            i += 1;
        }
        assert(all_open(members));
        let ghost all = opened(members);
        assert(infos_view(records@) =~= infos_of(all));
        let root_name = match find_app_root(&records) {
            Some(root_name) => root_name,
            None => {
                return Err(ZipError::NoAppRoot);
            },
        };
        let mut targets: Vec<Option<String>> = Vec::new();
        let mut j: usize = 0;
        while j < count
            invariant
                j <= count,
                count == members.len(),
                count == records@.len(),
                members == members_of(archive),
                all_open(members),
                all == opened(members),
                infos_view(records@) == infos_of(all),
                targets@.len() == j,
                forall|k: int|
                    0 <= k < j && listed(root_name@, k as usize, #[trigger] infos_of(all)[k]) is Link
                        ==> targets_view(targets@)[k] == texts_of(all)[k],
            decreases count - j,
        {
            let ghost before = targets_view(targets@);
            assert(infos_view(records@)[j as int] == infos_of(all)[j as int]);
            let target: Option<String> = match list_member(root_name.as_str(), j, &records[j]) {
                Listing::Link { .. } => member_text(&mut archive, j),
                _ => None,
            };
            targets.push(target);
            assert(forall|k: int| 0 <= k < j ==> targets_view(targets@)[k] == before[k]);
            j += 1;
        }
        proof {
            lemma_targets_of_links(
                root_name@,
                infos_of(all),
                targets_view(targets@),
                texts_of(all),
            );
        }
        match list_entries(root_name.as_str(), &records, &targets) {
            Ok(items) => Ok(ZipEntries { root_name, items, archive }),
            Err(e) => Err(e),
        }
    }
}

} // verus!

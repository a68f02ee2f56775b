//! What has to be created on a volume for the entries of a bundle, and in
//! which order.
use crate::text;
use crate::zip_reader;
use crate::zip_reader::{Entry, ZipEntry};
use vstd::hash_set::StringHashSet;
use vstd::prelude::*;

verus! {

broadcast use vstd::string::group_string_axioms;

/// A directory to create.
pub struct DirEntry {
    pub path: String,
    pub mode: u16,
}

/// A file to create.
pub struct FileEntry {
    pub path: String,
    pub zip_index: usize,
    pub size: u64,
    pub mode: u16,
}

/// A symbolic link to create.
pub struct SymlinkEntry {
    pub path: String,
    pub target: String,
    pub mode: u16,
}

/// Everything to create: the directories in this order, the files and the
/// symbolic links.
pub struct SortedEntries {
    pub dirs: Vec<DirEntry>,
    pub files: Vec<FileEntry>,
    pub symlinks: Vec<SymlinkEntry>,
}

/// What a [`DirEntry`] is.
pub struct Dir {
    pub path: Seq<char>,
    pub mode: u16,
}

/// What a [`FileEntry`] is.
pub struct File {
    pub path: Seq<char>,
    pub zip_index: usize,
    pub size: u64,
    pub mode: u16,
}

/// What a [`SymlinkEntry`] is.
pub struct Symlink {
    pub path: Seq<char>,
    pub target: Seq<char>,
    pub mode: u16,
}

impl View for DirEntry {
    type V = Dir;

    open spec fn view(&self) -> Dir {
        Dir { path: self.path@, mode: self.mode }
    }
}

impl View for FileEntry {
    type V = File;

    open spec fn view(&self) -> File {
        File { path: self.path@, zip_index: self.zip_index, size: self.size, mode: self.mode }
    }
}

impl View for SymlinkEntry {
    type V = Symlink;

    open spec fn view(&self) -> Symlink {
        Symlink { path: self.path@, target: self.target@, mode: self.mode }
    }
}

pub open spec fn dirs_view(dirs: Seq<DirEntry>) -> Seq<Dir> {
    Seq::new(dirs.len(), |i: int| dirs[i]@)
}

pub open spec fn files_view(files: Seq<FileEntry>) -> Seq<File> {
    Seq::new(files.len(), |i: int| files[i]@)
}

pub open spec fn symlinks_view(symlinks: Seq<SymlinkEntry>) -> Seq<Symlink> {
    Seq::new(symlinks.len(), |i: int| symlinks[i]@)
}

// ---------------------------------------------------------------------------
// Paths
// ---------------------------------------------------------------------------

/// The path of the bundle itself.
pub open spec fn root_path(root: Seq<char>) -> Seq<char> {
    "/"@ + root
}

/// `path` with forward slashes only.
pub open spec fn slashed(path: Seq<char>) -> Seq<char> {
    text::replaced(path, '\\', '/')
}

/// Where an entry comes to lie on the volume.
pub open spec fn entry_path(root: Seq<char>, entry: Entry) -> Seq<char> {
    placed_path(root, entry.relative_path())
}

/// Where something with the given relative path comes to lie on the volume.
pub open spec fn placed_path(root: Seq<char>, relative_path: Seq<char>) -> Seq<char> {
    if relative_path.len() == 0 {
        root_path(root)
    } else {
        root_path(root) + "/"@ + slashed(relative_path)
    }
}

/// The parts of a path between slashes, empty ones left out.
pub open spec fn components(path: Seq<char>) -> Seq<Seq<char>> {
    text::split_on(path, '/', None).filter(|part: Seq<char>| part.len() > 0)
}

/// `base` with `parts` below it.
pub open spec fn joined(base: Seq<char>, parts: Seq<Seq<char>>) -> Seq<char>
    decreases parts.len(),
{
    if parts.len() == 0 {
        base
    } else {
        joined(base, parts.drop_last()) + "/"@ + parts.last()
    }
}

/// The directories between the bundle and an entry, outermost first.
pub open spec fn parents(root: Seq<char>, entry: Entry) -> Seq<Seq<char>> {
    let parts = components(slashed(entry.relative_path()));
    if parts.len() == 0 {
        Seq::empty()
    } else {
        Seq::new((parts.len() - 1) as nat, |k: int| joined(root_path(root), parts.take(k + 1)))
    }
}

/// The directories between the bundle and its entries, entry by entry.
pub open spec fn all_parents(root: Seq<char>, entries: Seq<Entry>) -> Seq<Seq<char>>
    decreases entries.len(),
{
    if entries.len() == 0 {
        Seq::empty()
    } else {
        all_parents(root, entries.drop_last()) + parents(root, entries.last())
    }
}

// ---------------------------------------------------------------------------
// What is created
// ---------------------------------------------------------------------------

/// Whether some entry lies at `path`.
pub open spec fn taken(root: Seq<char>, entries: Seq<Entry>, path: Seq<char>) -> bool {
    exists|i: int| 0 <= i < entries.len() && entry_path(root, #[trigger] entries[i]) == path
}

/// The files among `entries`. Of entries with the same path only the first
/// counts, whatever it is.
pub open spec fn files_of(root: Seq<char>, entries: Seq<Entry>) -> Seq<File>
    decreases entries.len(),
{
    if entries.len() == 0 {
        Seq::empty()
    } else {
        let before = files_of(root, entries.drop_last());
        let path = entry_path(root, entries.last());
        match entries.last() {
            Entry::File { zip_index, size, mode, .. } => if taken(root, entries.drop_last(), path) {
                before
            } else {
                before.push(File { path, zip_index, size, mode: mode % 4096 })
            },
            _ => before,
        }
    }
}

/// The symbolic links among `entries`.
pub open spec fn symlinks_of(root: Seq<char>, entries: Seq<Entry>) -> Seq<Symlink>
    decreases entries.len(),
{
    if entries.len() == 0 {
        Seq::empty()
    } else {
        let before = symlinks_of(root, entries.drop_last());
        let path = entry_path(root, entries.last());
        match entries.last() {
            Entry::Symlink { target, mode, .. } => if taken(root, entries.drop_last(), path) {
                before
            } else {
                before.push(Symlink { path, target: slashed(target), mode: mode % 4096 })
            },
            _ => before,
        }
    }
}

/// The directories among `entries`.
pub open spec fn listed_dirs(root: Seq<char>, entries: Seq<Entry>) -> Seq<Dir>
    decreases entries.len(),
{
    if entries.len() == 0 {
        Seq::empty()
    } else {
        let before = listed_dirs(root, entries.drop_last());
        let path = entry_path(root, entries.last());
        match entries.last() {
            Entry::Directory { mode, .. } => if taken(root, entries.drop_last(), path) {
                before
            } else {
                before.push(Dir { path, mode: mode % 4096 })
            },
            _ => before,
        }
    }
}

/// The directories that `paths` add where no entry lies at their path, each
/// once and with mode 755.
pub open spec fn added_dirs(
    root: Seq<char>,
    entries: Seq<Entry>,
    paths: Seq<Seq<char>>,
) -> Seq<Dir>
    decreases paths.len(),
{
    if paths.len() == 0 {
        Seq::empty()
    } else {
        let before = added_dirs(root, entries, paths.drop_last());
        let path = paths.last();
        if taken(root, entries, path) || paths.drop_last().contains(path) {
            before
        } else {
            before.push(Dir { path, mode: 0o755 })
        }
    }
}

/// All directories that the entries call for.
pub open spec fn needed_dirs(root: Seq<char>, entries: Seq<Entry>) -> Seq<Dir> {
    listed_dirs(root, entries) + added_dirs(root, entries, all_parents(root, entries))
}

/// How many slashes a path has.
pub open spec fn depth(path: Seq<char>) -> nat {
    text::count_of(path, '/')
}

/// Shallower paths come first; those of equal depth in lexicographic order.
pub open spec fn comes_before(a: Seq<char>, b: Seq<char>) -> bool {
    depth(a) < depth(b) || (depth(a) == depth(b) && text::precedes(a, b))
}

/// Whether every directory comes before all that follow it.
pub open spec fn in_order(dirs: Seq<Dir>) -> bool {
    forall|i: int, j: int|
        #![trigger dirs[i], dirs[j]]
        0 <= i < j < dirs.len() ==> comes_before(dirs[i].path, dirs[j].path)
}

/// Whether `dirs` has a directory at `path`.
pub open spec fn has_dir(dirs: Seq<Dir>, path: Seq<char>) -> bool {
    exists|i: int| 0 <= i < dirs.len() && (#[trigger] dirs[i]).path == path
}

/// Whether `dirs` are the needed directories in order, with the bundle itself
/// before them where it is not one of them.
pub open spec fn sorted_dirs(root: Seq<char>, entries: Seq<Entry>, dirs: Seq<Dir>) -> bool {
    let needed = needed_dirs(root, entries);
    if has_dir(needed, root_path(root)) {
        in_order(dirs) && dirs.to_multiset() == needed.to_multiset()
    } else {
        &&& dirs.len() > 0
        &&& dirs[0] == (Dir { path: root_path(root), mode: 0o755 })
        &&& in_order(dirs.skip(1))
        &&& dirs.skip(1).to_multiset() == needed.to_multiset()
    }
}

// ---------------------------------------------------------------------------
// Categorizing
// ---------------------------------------------------------------------------

proof fn lemma_comes_before_transitive(a: Seq<char>, b: Seq<char>, c: Seq<char>)
    requires
        comes_before(a, b),
        comes_before(b, c),
    ensures
        comes_before(a, c),
{
    if depth(a) == depth(b) && depth(b) == depth(c) {
        text::law_precedes_transitive(a, b, c);
    }
}

proof fn lemma_comes_before_total(a: Seq<char>, b: Seq<char>)
    requires
        a != b,
    ensures
        comes_before(a, b) || comes_before(b, a),
{
    if depth(a) == depth(b) {
        text::law_precedes_total(a, b);
    }
}

proof fn lemma_insert_multiset(dirs: Seq<Dir>, at: int, dir: Dir)
    requires
        0 <= at <= dirs.len(),
    ensures
        dirs.insert(at, dir).to_multiset() == dirs.to_multiset().insert(dir),
{
    broadcast use vstd::seq_lib::group_to_multiset_ensures;

    let grown = dirs.insert(at, dir);
    assert(grown[at] == dir);
    assert(grown.remove(at) =~= dirs);
    assert(grown.contains(dir));
    assert(grown.to_multiset() =~= dirs.to_multiset().insert(dir));
}

fn is_before(a: &str, b: &str) -> (r: bool)
    ensures
        r == comes_before(a@, b@),
{
    let depth_a: usize = text::count(a, '/');
    let depth_b: usize = text::count(b, '/');
    depth_a < depth_b || (depth_a == depth_b && text::before(a, b))
}

/// Puts `dir` where it belongs among directories that are in order.
fn insert_dir(dirs: &mut Vec<DirEntry>, dir: DirEntry)
    requires
        in_order(dirs_view(old(dirs)@)),
        !has_dir(dirs_view(old(dirs)@), dir@.path),
    ensures
        in_order(dirs_view(final(dirs)@)),
        dirs_view(final(dirs)@).to_multiset() == dirs_view(old(dirs)@).to_multiset().insert(dir@),
        forall|path: Seq<char>| #[trigger]
            has_dir(dirs_view(final(dirs)@), path) <==> has_dir(dirs_view(old(dirs)@), path) || path
                == dir@.path,
{
    let ghost all = dirs_view(dirs@);
    let ghost new = dir@;
    let mut low: usize = 0;
    let mut high: usize = dirs.len();
    while low < high
        invariant
            low <= high <= dirs@.len(),
            dirs@ == old(dirs)@,
            all == dirs_view(dirs@),
            new == dir@,
            in_order(all),
            forall|i: int| 0 <= i < low ==> comes_before((#[trigger] all[i]).path, new.path),
            forall|i: int|
                high <= i < all.len() ==> !comes_before((#[trigger] all[i]).path, new.path),
        decreases high - low,
    {
        let middle: usize = low + (high - low) / 2;
        if is_before(dirs[middle].path.as_str(), dir.path.as_str()) {
            proof {
                assert(comes_before(all[middle as int].path, new.path));
                assert forall|i: int| 0 <= i <= middle implies comes_before(
                    (#[trigger] all[i]).path,
                    new.path,
                ) by {
                    if i < middle {
                        lemma_comes_before_transitive(
                            all[i].path,
                            all[middle as int].path,
                            new.path,
                        );
                    }
                }
            }
            low = middle + 1;
        } else {
            proof {
                assert(!comes_before(all[middle as int].path, new.path));
                assert forall|i: int| middle <= i < all.len() implies !comes_before(
                    (#[trigger] all[i]).path,
                    new.path,
                ) by {
                    if comes_before(all[i].path, new.path) && middle < i {
                        lemma_comes_before_transitive(
                            all[middle as int].path,
                            all[i].path,
                            new.path,
                        );
                    }
                }
            }
            high = middle;
        }
    }
    let ghost grown = all.insert(low as int, new);
    proof {
        lemma_insert_multiset(all, low as int, new);
        assert forall|i: int, j: int|
            #![trigger grown[i], grown[j]]
            0 <= i < j < grown.len() implies comes_before(grown[i].path, grown[j].path) by {
            if i == low {
                assert(grown[j] == all[j - 1]);
                assert(all[j - 1].path != new.path);
                lemma_comes_before_total(all[j - 1].path, new.path);
            } else if j == low {
                assert(grown[i] == all[i]);
            } else {
                let a = if i < low {
                    i
                } else {
                    i - 1
                };
                let b = if j < low {
                    j
                } else {
                    j - 1
                };
                assert(grown[i] == all[a]);
                assert(grown[j] == all[b]);
            }
        }
        assert forall|path: Seq<char>| #[trigger] has_dir(grown, path) <==> has_dir(all, path)
            || path == new.path by {
            if has_dir(grown, path) {
                let i = choose|i: int| 0 <= i < grown.len() && (#[trigger] grown[i]).path == path;
                if i < low {
                    assert(all[i].path == path);
                } else if i > low {
                    assert(all[i - 1].path == path);
                }
            }
            if has_dir(all, path) {
                let i = choose|i: int| 0 <= i < all.len() && (#[trigger] all[i]).path == path;
                if i < low {
                    assert(grown[i].path == path);
                } else {
                    assert(grown[i + 1].path == path);
                }
            }
            assert(grown[low as int].path == new.path);
        }
    }
    dirs.insert(low, dir);
    assert(dirs_view(dirs@) =~= grown);
}

/// The parts of a path between slashes, empty ones left out.
pub fn path_components(path: &str) -> (r: Vec<String>)
    ensures
        text::views(r@) == components(path@),
{
    let pieces = text::split(path, '/', None);
    let ghost all = text::views(pieces@);
    let ghost keep = |part: Seq<char>| part.len() > 0;
    let mut r: Vec<String> = Vec::new();
    let mut i: usize = 0;
    proof {
        reveal(Seq::filter);
    }
    assert(text::views(r@) =~= all.take(0).filter(keep));
    while i < pieces.len()
        invariant
            i <= pieces@.len(),
            all == text::views(pieces@),
            keep == (|part: Seq<char>| part.len() > 0),
            text::views(r@) == all.take(i as int).filter(keep),
        decreases pieces@.len() - i,
    {
        proof {
            reveal(Seq::filter);
            assert(all.take(i + 1).drop_last() =~= all.take(i as int));
            assert(all.take(i + 1).last() == pieces@[i as int]@);
        }
        if text::chars_of(pieces[i].as_str()).len() > 0 {
            let ghost before = text::views(r@);
            r.push(pieces[i].clone());
            assert(text::views(r@) =~= before.push(pieces@[i as int]@));
        }
        i += 1;
    }
    assert(all.take(i as int) =~= all);
    r
}

/// Where something with the given relative path comes to lie on the volume.
pub fn volume_path(root: &str, relative_path: &str) -> (r: String)
    ensures
        r@ == placed_path(root@, relative_path@),
{
    let mut path: String = "/".to_owned();
    path.append(root);
    if text::chars_of(relative_path).len() > 0 {
        path.append("/");
        path.append(text::replace(relative_path, '\\', '/').as_str());
    }
    path
}

/// Takes over the entries themselves: the first one at each path.
fn take_listed(root: &str, items: &Vec<ZipEntry>, seen: &mut StringHashSet) -> (r: SortedEntries)
    requires
        old(seen)@ == Set::<Seq<char>>::empty(),
    ensures
        files_view(r.files@) == files_of(root@, zip_reader::entries_view(items@)),
        symlinks_view(r.symlinks@) == symlinks_of(root@, zip_reader::entries_view(items@)),
        in_order(dirs_view(r.dirs@)),
        dirs_view(r.dirs@).to_multiset() == listed_dirs(
            root@,
            zip_reader::entries_view(items@),
        ).to_multiset(),
        forall|path: Seq<char>| #[trigger]
            final(seen)@.contains(path) <==> taken(
                root@,
                zip_reader::entries_view(items@),
                path,
            ),
        forall|path: Seq<char>| #[trigger]
            has_dir(dirs_view(r.dirs@), path) ==> taken(
                root@,
                zip_reader::entries_view(items@),
                path,
            ),
{
    let ghost all = zip_reader::entries_view(items@);
    let mut dirs: Vec<DirEntry> = Vec::new();
    let mut files: Vec<FileEntry> = Vec::new();
    let mut symlinks: Vec<SymlinkEntry> = Vec::new();
    let mut i: usize = 0;
    assert(all.take(0) =~= Seq::empty());
    assert(dirs_view(dirs@) =~= Seq::empty());
    assert(files_view(files@) =~= Seq::empty());
    assert(symlinks_view(symlinks@) =~= Seq::empty());
    while i < items.len()
        invariant
            i <= items@.len(),
            all == zip_reader::entries_view(items@),
            files_view(files@) == files_of(root@, all.take(i as int)),
            symlinks_view(symlinks@) == symlinks_of(root@, all.take(i as int)),
            in_order(dirs_view(dirs@)),
            dirs_view(dirs@).to_multiset() == listed_dirs(
                root@,
                all.take(i as int),
            ).to_multiset(),
            forall|path: Seq<char>| #[trigger]
                seen@.contains(path) <==> taken(root@, all.take(i as int), path),
            forall|path: Seq<char>| #[trigger]
                has_dir(dirs_view(dirs@), path) ==> taken(root@, all.take(i as int), path),
        decreases items@.len() - i,
    {
        let ghost done = all.take(i as int);
        let ghost next = all.take(i + 1);
        let path = volume_path(root, items[i].relative_path().as_str());
        let ghost here = path@;
        proof {
            assert(next.drop_last() =~= done);
            assert(next.last() == items@[i as int]@);
            assert(here == entry_path(root@, next.last()));
            assert forall|p: Seq<char>| #[trigger] taken(root@, next, p) <==> taken(root@, done, p)
                || p == here by {
                lemma_taken_push(root@, next, p);
            }
        }
        let fresh: bool = seen.insert(path.clone());
        if fresh {
            match &items[i] {
                ZipEntry::Directory { mode, .. } => {
                    let dir = DirEntry { path, mode: *mode % 4096 };
                    proof {
                        broadcast use vstd::seq_lib::group_to_multiset_ensures;

                        assert(listed_dirs(root@, next) == listed_dirs(root@, done).push(dir@));
                    }
                    insert_dir(&mut dirs, dir);
                },
                ZipEntry::File { zip_index, size, mode, .. } => {
                    let ghost before = files_view(files@);
                    let file = FileEntry {
                        path,
                        zip_index: *zip_index,
                        size: *size,
                        mode: *mode % 4096,
                    };
                    let ghost added = file@;
                    files.push(file);
                    assert(files_view(files@) =~= before.push(added));
                },
                ZipEntry::Symlink { target, mode, .. } => {
                    let ghost before = symlinks_view(symlinks@);
                    let link = SymlinkEntry {
                        path,
                        target: text::replace(target.as_str(), '\\', '/'),
                        mode: *mode % 4096,
                    };
                    let ghost added = link@;
                    symlinks.push(link);
                    assert(symlinks_view(symlinks@) =~= before.push(added));
                },
            }
        }
        i += 1;
    }
    assert(all.take(i as int) =~= all);
    SortedEntries { dirs, files, symlinks }
}

proof fn lemma_taken_push(root: Seq<char>, entries: Seq<Entry>, path: Seq<char>)
    requires
        entries.len() > 0,
    ensures
        taken(root, entries, path) <==> taken(root, entries.drop_last(), path) || path
            == entry_path(root, entries.last()),
{
    let before = entries.drop_last();
    if taken(root, entries, path) {
        let i = choose|i: int|
            0 <= i < entries.len() && entry_path(root, #[trigger] entries[i]) == path;
        if i < before.len() {
            assert(before[i] == entries[i]);
        }
    }
    if taken(root, before, path) {
        let i = choose|i: int|
            0 <= i < before.len() && entry_path(root, #[trigger] before[i]) == path;
        assert(entries[i] == before[i]);
    }
    assert(entries[entries.len() - 1] == entries.last());
}

proof fn lemma_added_push(
    root: Seq<char>,
    entries: Seq<Entry>,
    paths: Seq<Seq<char>>,
    path: Seq<char>,
)
    ensures
        added_dirs(root, entries, paths.push(path)) == (if taken(root, entries, path)
            || paths.contains(path) {
            added_dirs(root, entries, paths)
        } else {
            added_dirs(root, entries, paths).push(Dir { path, mode: 0o755 })
        }),
        forall|p: Seq<char>| #[trigger]
            paths.push(path).contains(p) <==> paths.contains(p) || p == path,
{
    let grown = paths.push(path);
    assert(grown.drop_last() =~= paths);
    assert forall|p: Seq<char>| #[trigger] grown.contains(p) <==> paths.contains(p) || p
        == path by {
        if paths.contains(p) {
            let i = choose|i: int| 0 <= i < paths.len() && paths[i] == p;
            assert(grown[i] == p);
        }
        assert(grown[paths.len() as int] == path);
        if grown.contains(p) {
            let i = choose|i: int| 0 <= i < grown.len() && grown[i] == p;
            if i < paths.len() {
                assert(paths[i] == p);
            }
        }
    }
}

/// Adds the directories between the bundle and one entry that are not there.
fn add_parents(
    root: &str,
    relative_path: &str,
    seen: &mut StringHashSet,
    dirs: &mut Vec<DirEntry>,
    Ghost(entries): Ghost<Seq<Entry>>,
    Ghost(paths): Ghost<Seq<Seq<char>>>,
    Ghost(entry): Ghost<Entry>,
)
    requires
        entry.relative_path() == relative_path@,
        in_order(dirs_view(old(dirs)@)),
        dirs_view(old(dirs)@).to_multiset() == (listed_dirs(root@, entries) + added_dirs(
            root@,
            entries,
            paths,
        )).to_multiset(),
        forall|p: Seq<char>| #[trigger]
            old(seen)@.contains(p) <==> taken(root@, entries, p) || paths.contains(p),
        forall|p: Seq<char>| #[trigger]
            has_dir(dirs_view(old(dirs)@), p) ==> old(seen)@.contains(p),
    ensures
        in_order(dirs_view(final(dirs)@)),
        dirs_view(final(dirs)@).to_multiset() == (listed_dirs(root@, entries) + added_dirs(
            root@,
            entries,
            paths + parents(root@, entry),
        )).to_multiset(),
        forall|p: Seq<char>| #[trigger]
            final(seen)@.contains(p) <==> taken(root@, entries, p) || (paths + parents(
                root@,
                entry,
            )).contains(p),
        forall|p: Seq<char>| #[trigger]
            has_dir(dirs_view(final(dirs)@), p) ==> final(seen)@.contains(p),
{
    let mut current: String = volume_path(root, "");
    proof {
        reveal_strlit("");
    }
    let parts = path_components(text::replace(relative_path, '\\', '/').as_str());
    let ghost names = text::views(parts@);
    let ghost above = parents(root@, entry);
    let mut k: usize = 0;
    assert(names.take(0) =~= Seq::empty());
    assert(paths + above.take(0) =~= paths);
    let last: usize = if parts.len() == 0 {
        0
    } else {
        parts.len() - 1
    };
    while k < last
        invariant
            k <= last == above.len(),
            last <= parts@.len(),
            names == text::views(parts@),
            names == components(slashed(entry.relative_path())),
            above == parents(root@, entry),
            current@ == joined(root_path(root@), names.take(k as int)),
            in_order(dirs_view(dirs@)),
            dirs_view(dirs@).to_multiset() == (listed_dirs(root@, entries) + added_dirs(
                root@,
                entries,
                paths + above.take(k as int),
            )).to_multiset(),
            forall|p: Seq<char>| #[trigger]
                seen@.contains(p) <==> taken(root@, entries, p) || (paths + above.take(
                    k as int,
                )).contains(p),
            forall|p: Seq<char>| #[trigger]
                has_dir(dirs_view(dirs@), p) ==> seen@.contains(p),
        decreases last - k,
    {
        let ghost done = paths + above.take(k as int);
        current.append("/");
        current.append(parts[k].as_str());
        proof {
            assert(names.take(k + 1).drop_last() =~= names.take(k as int));
            assert(current@ == above[k as int]);
            assert(paths + above.take(k + 1) =~= done.push(above[k as int]));
            lemma_added_push(root@, entries, done, above[k as int]);
        }
        let fresh: bool = seen.insert(current.clone());
        if fresh {
            let dir = DirEntry { path: current.clone(), mode: 0o755 };
            proof {
                broadcast use vstd::seq_lib::group_to_multiset_ensures;

                let listed = listed_dirs(root@, entries);
                let added = added_dirs(root@, entries, done);
                assert(dir@ == Dir { path: above[k as int], mode: 0o755 });
                assert(listed + added.push(dir@) =~= (listed + added).push(dir@));
            }
            insert_dir(dirs, dir);
        }
        k += 1;
    }
    assert(above.take(k as int) =~= above);
}

fn has_dir_at(dirs: &Vec<DirEntry>, path: &str) -> (r: bool)
    ensures
        r == has_dir(dirs_view(dirs@), path@),
{
    let ghost all = dirs_view(dirs@);
    let mut i: usize = 0;
    while i < dirs.len()
        invariant
            i <= dirs@.len(),
            all == dirs_view(dirs@),
            forall|k: int| 0 <= k < i ==> (#[trigger] all[k]).path != path@,
        decreases dirs@.len() - i,
    {
        if text::same(dirs[i].path.as_str(), path) {
            assert(all[i as int].path == path@);
            return true;
        }
        i += 1;
    }
    false
}

/// Directories with the same members have the same paths.
proof fn lemma_same_dirs(a: Seq<Dir>, b: Seq<Dir>, path: Seq<char>)
    requires
        a.to_multiset() == b.to_multiset(),
        has_dir(a, path),
    ensures
        has_dir(b, path),
{
    broadcast use vstd::seq_lib::group_to_multiset_ensures;

    let i = choose|i: int| 0 <= i < a.len() && (#[trigger] a[i]).path == path;
    assert(a.contains(a[i]));
    assert(b.to_multiset().count(a[i]) > 0);
    assert(b.contains(a[i]));
    let j = choose|j: int| 0 <= j < b.len() && b[j] == a[i];
    assert(b[j].path == path);
}

/// Categorize and sort entries for creation on a volume.
///
/// Of entries with the same path the first counts. Directories that no entry
/// lists are added, and directories are sorted by depth (shallowest first).
pub fn categorize_and_sort_entries(root_name: &str, items: &Vec<ZipEntry>) -> (r: SortedEntries)
    ensures
        files_view(r.files@) == files_of(root_name@, zip_reader::entries_view(items@)),
        symlinks_view(r.symlinks@) == symlinks_of(root_name@, zip_reader::entries_view(items@)),
        sorted_dirs(root_name@, zip_reader::entries_view(items@), dirs_view(r.dirs@)),
{
    let ghost all = zip_reader::entries_view(items@);
    let mut seen = StringHashSet::new();
    let listed = take_listed(root_name, items, &mut seen);
    let SortedEntries { mut dirs, files, symlinks } = listed;
    let mut i: usize = 0;
    assert(all.take(0) =~= Seq::empty());
    assert(listed_dirs(root_name@, all) + Seq::empty() =~= listed_dirs(root_name@, all));
    while i < items.len()
        invariant
            i <= items@.len(),
            all == zip_reader::entries_view(items@),
            in_order(dirs_view(dirs@)),
            dirs_view(dirs@).to_multiset() == (listed_dirs(root_name@, all) + added_dirs(
                root_name@,
                all,
                all_parents(root_name@, all.take(i as int)),
            )).to_multiset(),
            forall|p: Seq<char>| #[trigger]
                seen@.contains(p) <==> taken(root_name@, all, p) || all_parents(
                    root_name@,
                    all.take(i as int),
                ).contains(p),
            forall|p: Seq<char>| #[trigger]
                has_dir(dirs_view(dirs@), p) ==> seen@.contains(p),
        decreases items@.len() - i,
    {
        assert(all.take(i + 1).drop_last() =~= all.take(i as int));
        assert(all.take(i + 1).last() == items@[i as int]@);
        add_parents(
            root_name,
            items[i].relative_path().as_str(),
            &mut seen,
            &mut dirs,
            Ghost(all),
            Ghost(all_parents(root_name@, all.take(i as int))),
            Ghost(items@[i as int]@),
        );
        i += 1;
    }
    assert(all.take(i as int) =~= all);
    let root: String = volume_path(root_name, "");
    proof {
        reveal_strlit("");
    }
    let ghost needed = needed_dirs(root_name@, all);
    let ghost before = dirs_view(dirs@);
    if has_dir_at(&dirs, root.as_str()) {
        proof {
            lemma_same_dirs(before, needed, root@);
        }
    } else {
        proof {
            if has_dir(needed, root@) {
                lemma_same_dirs(needed, before, root@);
            }
        }
        let dir = DirEntry { path: root, mode: 0o755 };
        let ghost first = dir@;
        dirs.insert(0, dir);
        assert(dirs_view(dirs@) =~= seq![first] + before);
        assert(dirs_view(dirs@).skip(1) =~= before);
    }
    SortedEntries { dirs, files, symlinks }
}

// ---------------------------------------------------------------------------
// Laws
// ---------------------------------------------------------------------------

/// Whether `path` lies below `base`.
pub open spec fn below(base: Seq<char>, path: Seq<char>) -> bool {
    exists|rest: Seq<char>| path == #[trigger] (base + "/"@ + rest)
}

/// What lies below a path is deeper than it.
proof fn lemma_below_deeper(base: Seq<char>, path: Seq<char>)
    requires
        below(base, path),
    ensures
        depth(base) < depth(path),
{
    let rest = choose|rest: Seq<char>| path == #[trigger] (base + "/"@ + rest);
    reveal_strlit("/");
    text::lemma_count_concat(base + "/"@, rest, '/');
    text::lemma_count_concat(base, "/"@, '/');
    assert("/"@.last() == '/');
}

proof fn lemma_joined_below(base: Seq<char>, parts: Seq<Seq<char>>)
    requires
        parts.len() > 0,
    ensures
        below(base, joined(base, parts)),
    decreases parts.len(),
{
    if parts.len() == 1 {
        assert(joined(base, parts.drop_last()) == base);
        assert(joined(base, parts) == base + "/"@ + parts.last());
    } else {
        lemma_joined_below(base, parts.drop_last());
        let inner = joined(base, parts.drop_last());
        let rest = choose|rest: Seq<char>| inner == #[trigger] (base + "/"@ + rest);
        assert(joined(base, parts) =~= base + "/"@ + (rest + "/"@ + parts.last()));
    }
}

/// Whether a directory is the bundle or lies below it.
spec fn in_bundle(root: Seq<char>, path: Seq<char>) -> bool {
    path == root_path(root) || below(root_path(root), path)
}

proof fn lemma_listed_in_bundle(root: Seq<char>, entries: Seq<Entry>)
    ensures
        forall|i: int|
            0 <= i < listed_dirs(root, entries).len() ==> in_bundle(
                root,
                (#[trigger] listed_dirs(root, entries)[i]).path,
            ),
    decreases entries.len(),
{
    if entries.len() > 0 {
        lemma_listed_in_bundle(root, entries.drop_last());
        let before = listed_dirs(root, entries.drop_last());
        let now = listed_dirs(root, entries);
        assert forall|i: int| 0 <= i < now.len() implies in_bundle(
            root,
            (#[trigger] now[i]).path,
        ) by {
            if i < before.len() {
                assert(now[i] == before[i]);
            }
        }
    }
}

proof fn lemma_parents_in_bundle(root: Seq<char>, entries: Seq<Entry>)
    ensures
        forall|i: int|
            0 <= i < all_parents(root, entries).len() ==> below(
                root_path(root),
                #[trigger] all_parents(root, entries)[i],
            ),
    decreases entries.len(),
{
    if entries.len() > 0 {
        let before = all_parents(root, entries.drop_last());
        let last = parents(root, entries.last());
        let now = all_parents(root, entries);
        lemma_parents_in_bundle(root, entries.drop_last());
        assert forall|i: int| 0 <= i < now.len() implies below(
            root_path(root),
            #[trigger] now[i],
        ) by {
            if i < before.len() {
                assert(now[i] == before[i]);
            } else {
                let parts = components(slashed(entries.last().relative_path()));
                assert(now[i] == last[i - before.len()]);
                lemma_joined_below(root_path(root), parts.take(i - before.len() + 1));
            }
        }
    }
}

proof fn lemma_added_from_paths(root: Seq<char>, entries: Seq<Entry>, paths: Seq<Seq<char>>)
    ensures
        forall|i: int|
            0 <= i < added_dirs(root, entries, paths).len() ==> {
                let path = (#[trigger] added_dirs(root, entries, paths)[i]).path;
                paths.contains(path) && !taken(root, entries, path)
            },
        forall|path: Seq<char>|
            paths.contains(path) && !taken(root, entries, path) ==> #[trigger] has_dir(
                added_dirs(root, entries, paths),
                path,
            ),
    decreases paths.len(),
{
    if paths.len() > 0 {
        let before = paths.drop_last();
        let old_dirs = added_dirs(root, entries, before);
        let now = added_dirs(root, entries, paths);
        lemma_added_from_paths(root, entries, before);
        lemma_added_push(root, entries, before, paths.last());
        assert(paths =~= before.push(paths.last()));
        assert forall|i: int| 0 <= i < now.len() implies {
            let path = (#[trigger] now[i]).path;
            paths.contains(path) && !taken(root, entries, path)
        } by {
            if i < old_dirs.len() {
                assert(now[i] == old_dirs[i]);
                assert(before.contains(old_dirs[i].path));
            } else {
                assert(now[i].path == paths.last());
            }
        }
        assert forall|path: Seq<char>|
            paths.contains(path) && !taken(root, entries, path) implies #[trigger] has_dir(
            now,
            path,
        ) by {
            if before.contains(path) {
                assert(has_dir(old_dirs, path));
                let i = choose|i: int|
                    0 <= i < old_dirs.len() && (#[trigger] old_dirs[i]).path == path;
                assert(now[i] == old_dirs[i]);
            } else {
                assert(path == paths.last());
                assert(now[old_dirs.len() as int].path == path);
            }
        }
    }
}

proof fn lemma_needed_in_bundle(root: Seq<char>, entries: Seq<Entry>, i: int)
    requires
        0 <= i < needed_dirs(root, entries).len(),
    ensures
        in_bundle(root, needed_dirs(root, entries)[i].path),
{
    let listed = listed_dirs(root, entries);
    let paths = all_parents(root, entries);
    lemma_listed_in_bundle(root, entries);
    lemma_parents_in_bundle(root, entries);
    lemma_added_from_paths(root, entries, paths);
    if i < listed.len() {
        assert(needed_dirs(root, entries)[i] == listed[i]);
    } else {
        let dir = added_dirs(root, entries, paths)[i - listed.len()];
        assert(needed_dirs(root, entries)[i] == dir);
        let k = choose|k: int| 0 <= k < paths.len() && paths[k] == dir.path;
        assert(below(root_path(root), paths[k]));
    }
}

/// Members of one list of directories are members of any with the same members.
proof fn lemma_same_member(a: Seq<Dir>, b: Seq<Dir>, i: int)
    requires
        a.to_multiset() == b.to_multiset(),
        0 <= i < a.len(),
    ensures
        exists|j: int| 0 <= j < b.len() && #[trigger] b[j] == a[i],
{
    broadcast use vstd::seq_lib::group_to_multiset_ensures;

    assert(a.contains(a[i]));
    assert(b.to_multiset().count(a[i]) > 0);
    assert(b.contains(a[i]));
}

/// The directories are in order from the first to the last: shallower ones
/// first, and those of equal depth in lexicographic order, so none comes twice.
pub proof fn law_dirs_are_in_order(root: Seq<char>, entries: Seq<Entry>, dirs: Seq<Dir>)
    requires
        sorted_dirs(root, entries, dirs),
    ensures
        in_order(dirs),
        forall|i: int, j: int|
            #![trigger dirs[i], dirs[j]]
            0 <= i < j < dirs.len() ==> dirs[i].path != dirs[j].path,
{
    let needed = needed_dirs(root, entries);
    if !has_dir(needed, root_path(root)) {
        let rest = dirs.skip(1);
        assert forall|i: int, j: int|
            #![trigger dirs[i], dirs[j]]
            0 <= i < j < dirs.len() implies comes_before(dirs[i].path, dirs[j].path) by {
            assert(dirs[j] == rest[j - 1]);
            if i == 0 {
                lemma_same_member(rest, needed, j - 1);
                let k = choose|k: int| 0 <= k < needed.len() && #[trigger] needed[k] == rest[j - 1];
                lemma_needed_in_bundle(root, entries, k);
                assert(needed[k].path != root_path(root));
                lemma_below_deeper(root_path(root), dirs[j].path);
            } else {
                assert(dirs[i] == rest[i - 1]);
            }
        }
    }
    assert forall|i: int, j: int|
        #![trigger dirs[i], dirs[j]]
        0 <= i < j < dirs.len() implies dirs[i].path != dirs[j].path by {
        text::law_precedes_irreflexive(dirs[i].path);
    }
}

/// The bundle itself is the first directory.
pub proof fn law_bundle_comes_first(root: Seq<char>, entries: Seq<Entry>, dirs: Seq<Dir>)
    requires
        sorted_dirs(root, entries, dirs),
    ensures
        dirs.len() > 0,
        dirs[0].path == root_path(root),
{
    let needed = needed_dirs(root, entries);
    if has_dir(needed, root_path(root)) {
        lemma_same_dirs(needed, dirs, root_path(root));
        let r = choose|r: int| 0 <= r < dirs.len() && (#[trigger] dirs[r]).path == root_path(root);
        if r > 0 {
            lemma_same_member(dirs, needed, 0);
            let k = choose|k: int| 0 <= k < needed.len() && #[trigger] needed[k] == dirs[0];
            lemma_needed_in_bundle(root, entries, k);
            assert(comes_before(dirs[0].path, dirs[r].path));
            if dirs[0].path == root_path(root) {
                text::law_precedes_irreflexive(root_path(root));
            } else {
                lemma_below_deeper(root_path(root), dirs[0].path);
            }
        }
    }
}

/// A directory comes before everything that lies below it.
pub proof fn law_contents_come_after(
    root: Seq<char>,
    entries: Seq<Entry>,
    dirs: Seq<Dir>,
    i: int,
    j: int,
)
    requires
        sorted_dirs(root, entries, dirs),
        0 <= i < dirs.len(),
        0 <= j < dirs.len(),
        below(dirs[i].path, dirs[j].path),
    ensures
        i < j,
{
    law_dirs_are_in_order(root, entries, dirs);
    lemma_below_deeper(dirs[i].path, dirs[j].path);
    if j < i {
        assert(comes_before(dirs[j].path, dirs[i].path));
    }
}

/// Whether entry `i` is the first one at its path.
pub open spec fn first_at(root: Seq<char>, entries: Seq<Entry>, i: int) -> bool {
    0 <= i < entries.len() && !taken(root, entries.take(i), entry_path(root, entries[i]))
}

/// Where something lies, the first entry there is what decides.
proof fn lemma_first_exists(root: Seq<char>, entries: Seq<Entry>, path: Seq<char>) -> (i: int)
    requires
        taken(root, entries, path),
    ensures
        first_at(root, entries, i),
        entry_path(root, entries[i]) == path,
    decreases entries.len(),
{
    let before = entries.drop_last();
    lemma_taken_push(root, entries, path);
    if taken(root, before, path) {
        let i = lemma_first_exists(root, before, path);
        assert(before.take(i) =~= entries.take(i));
        assert(before[i] == entries[i]);
        i
    } else {
        assert(before =~= entries.take(entries.len() - 1));
        entries.len() - 1
    }
}

/// There is only one first entry at a path.
proof fn lemma_first_unique(root: Seq<char>, entries: Seq<Entry>, i: int, j: int)
    requires
        first_at(root, entries, i),
        first_at(root, entries, j),
        entry_path(root, entries[i]) == entry_path(root, entries[j]),
    ensures
        i == j,
{
    if i < j {
        assert(entries.take(j)[i] == entries[i]);
    } else if j < i {
        assert(entries.take(i)[j] == entries[j]);
    }
}

proof fn lemma_first_extends(root: Seq<char>, entries: Seq<Entry>, i: int)
    requires
        entries.len() > 0,
        first_at(root, entries.drop_last(), i),
    ensures
        first_at(root, entries, i),
        entries[i] == entries.drop_last()[i],
{
    assert(entries.drop_last().take(i) =~= entries.take(i));
}

/// Each file comes from the first entry at its path.
proof fn lemma_file_source(root: Seq<char>, entries: Seq<Entry>, k: int) -> (i: int)
    requires
        0 <= k < files_of(root, entries).len(),
    ensures
        first_at(root, entries, i),
        entries[i] is File,
        entry_path(root, entries[i]) == files_of(root, entries)[k].path,
    decreases entries.len(),
{
    let before = entries.drop_last();
    if k < files_of(root, before).len() {
        let i = lemma_file_source(root, before, k);
        lemma_first_extends(root, entries, i);
        i
    } else {
        assert(before =~= entries.take(entries.len() - 1));
        entries.len() - 1
    }
}

/// Each symbolic link comes from the first entry at its path.
proof fn lemma_symlink_source(root: Seq<char>, entries: Seq<Entry>, k: int) -> (i: int)
    requires
        0 <= k < symlinks_of(root, entries).len(),
    ensures
        first_at(root, entries, i),
        entries[i] is Symlink,
        entry_path(root, entries[i]) == symlinks_of(root, entries)[k].path,
    decreases entries.len(),
{
    let before = entries.drop_last();
    if k < symlinks_of(root, before).len() {
        let i = lemma_symlink_source(root, before, k);
        lemma_first_extends(root, entries, i);
        i
    } else {
        assert(before =~= entries.take(entries.len() - 1));
        entries.len() - 1
    }
}

/// Each listed directory comes from the first entry at its path.
proof fn lemma_dir_source(root: Seq<char>, entries: Seq<Entry>, k: int) -> (i: int)
    requires
        0 <= k < listed_dirs(root, entries).len(),
    ensures
        first_at(root, entries, i),
        entries[i] is Directory,
        entry_path(root, entries[i]) == listed_dirs(root, entries)[k].path,
    decreases entries.len(),
{
    let before = entries.drop_last();
    if k < listed_dirs(root, before).len() {
        let i = lemma_dir_source(root, before, k);
        lemma_first_extends(root, entries, i);
        i
    } else {
        assert(before =~= entries.take(entries.len() - 1));
        entries.len() - 1
    }
}

/// Whether a file of that path is created.
pub open spec fn has_file(files: Seq<File>, path: Seq<char>) -> bool {
    exists|i: int| 0 <= i < files.len() && (#[trigger] files[i]).path == path
}

/// Whether a symbolic link of that path is created.
pub open spec fn has_symlink(symlinks: Seq<Symlink>, path: Seq<char>) -> bool {
    exists|i: int| 0 <= i < symlinks.len() && (#[trigger] symlinks[i]).path == path
}

/// The first entry at a path is created as what it is.
proof fn lemma_first_created(root: Seq<char>, entries: Seq<Entry>, i: int)
    requires
        first_at(root, entries, i),
    ensures
        entries[i] is File ==> has_file(files_of(root, entries), entry_path(root, entries[i])),
        entries[i] is Symlink ==> has_symlink(
            symlinks_of(root, entries),
            entry_path(root, entries[i]),
        ),
        entries[i] is Directory ==> has_dir(
            listed_dirs(root, entries),
            entry_path(root, entries[i]),
        ),
    decreases entries.len(),
{
    let before = entries.drop_last();
    let path = entry_path(root, entries[i]);
    if i < before.len() {
        assert(before.take(i) =~= entries.take(i));
        assert(before[i] == entries[i]);
        lemma_first_created(root, before, i);
        if entries[i] is File {
            let old_files = files_of(root, before);
            let k = choose|k: int| 0 <= k < old_files.len() && (#[trigger] old_files[k]).path == path;
            assert(files_of(root, entries)[k] == old_files[k]);
        } else if entries[i] is Symlink {
            let old_links = symlinks_of(root, before);
            let k = choose|k: int| 0 <= k < old_links.len() && (#[trigger] old_links[k]).path == path;
            assert(symlinks_of(root, entries)[k] == old_links[k]);
        } else {
            let old_dirs = listed_dirs(root, before);
            let k = choose|k: int| 0 <= k < old_dirs.len() && (#[trigger] old_dirs[k]).path == path;
            assert(listed_dirs(root, entries)[k] == old_dirs[k]);
        }
    } else {
        assert(before =~= entries.take(i));
        if entries[i] is File {
            assert(files_of(root, entries).last().path == path);
        } else if entries[i] is Symlink {
            assert(symlinks_of(root, entries).last().path == path);
        } else {
            assert(listed_dirs(root, entries).last().path == path);
        }
    }
}

proof fn lemma_dirs_have(root: Seq<char>, entries: Seq<Entry>, dirs: Seq<Dir>, path: Seq<char>)
    requires
        sorted_dirs(root, entries, dirs),
    ensures
        has_dir(needed_dirs(root, entries), path) ==> has_dir(dirs, path),
        has_dir(dirs, path) && path != root_path(root) ==> has_dir(
            needed_dirs(root, entries),
            path,
        ),
{
    let needed = needed_dirs(root, entries);
    if has_dir(needed, root_path(root)) {
        if has_dir(needed, path) {
            lemma_same_dirs(needed, dirs, path);
        }
        if has_dir(dirs, path) {
            lemma_same_dirs(dirs, needed, path);
        }
    } else {
        let rest = dirs.skip(1);
        if has_dir(needed, path) {
            lemma_same_dirs(needed, rest, path);
            let i = choose|i: int| 0 <= i < rest.len() && (#[trigger] rest[i]).path == path;
            assert(dirs[i + 1] == rest[i]);
        }
        if has_dir(dirs, path) && path != root_path(root) {
            let i = choose|i: int| 0 <= i < dirs.len() && (#[trigger] dirs[i]).path == path;
            assert(rest[i - 1] == dirs[i]);
            lemma_same_dirs(rest, needed, path);
        }
    }
}

proof fn lemma_needed_have(root: Seq<char>, entries: Seq<Entry>, path: Seq<char>)
    ensures
        has_dir(listed_dirs(root, entries), path) || has_dir(
            added_dirs(root, entries, all_parents(root, entries)),
            path,
        ) ==> has_dir(needed_dirs(root, entries), path),
{
    let listed = listed_dirs(root, entries);
    let added = added_dirs(root, entries, all_parents(root, entries));
    let needed = needed_dirs(root, entries);
    if has_dir(listed, path) {
        let k = choose|k: int| 0 <= k < listed.len() && (#[trigger] listed[k]).path == path;
        assert(needed[k] == listed[k]);
    }
    if has_dir(added, path) {
        let k = choose|k: int| 0 <= k < added.len() && (#[trigger] added[k]).path == path;
        assert(needed[listed.len() + k] == added[k]);
    }
}

/// Nothing is lost: at the path of every entry a file, a symbolic link or a
/// directory is created.
pub proof fn law_every_entry_is_created(
    root: Seq<char>,
    entries: Seq<Entry>,
    dirs: Seq<Dir>,
    i: int,
)
    requires
        sorted_dirs(root, entries, dirs),
        0 <= i < entries.len(),
    ensures
        ({
            let path = entry_path(root, entries[i]);
            ||| has_file(files_of(root, entries), path)
            ||| has_symlink(symlinks_of(root, entries), path)
            ||| has_dir(dirs, path)
        }),
{
    let path = entry_path(root, entries[i]);
    assert(taken(root, entries, path));
    let first = lemma_first_exists(root, entries, path);
    lemma_first_created(root, entries, first);
    lemma_needed_have(root, entries, path);
    lemma_dirs_have(root, entries, dirs, path);
}

/// Nothing is created twice: no two files and no two symbolic links have the
/// same path, and no path is both a file's and a link's.
pub proof fn law_no_path_twice(root: Seq<char>, entries: Seq<Entry>)
    ensures
        forall|i: int, j: int|
            #![trigger files_of(root, entries)[i], files_of(root, entries)[j]]
            0 <= i < j < files_of(root, entries).len() ==> files_of(root, entries)[i].path
                != files_of(root, entries)[j].path,
        forall|i: int, j: int|
            #![trigger symlinks_of(root, entries)[i], symlinks_of(root, entries)[j]]
            0 <= i < j < symlinks_of(root, entries).len() ==> symlinks_of(root, entries)[i].path
                != symlinks_of(root, entries)[j].path,
        forall|path: Seq<char>|
            !(has_file(files_of(root, entries), path) && has_symlink(
                symlinks_of(root, entries),
                path,
            )),
{
    let files = files_of(root, entries);
    let symlinks = symlinks_of(root, entries);
    lemma_files_distinct(root, entries);
    lemma_symlinks_distinct(root, entries);
    assert forall|path: Seq<char>| !(has_file(files, path) && has_symlink(symlinks, path)) by {
        if has_file(files, path) && has_symlink(symlinks, path) {
            let a = choose|a: int| 0 <= a < files.len() && (#[trigger] files[a]).path == path;
            let b = choose|b: int|
                0 <= b < symlinks.len() && (#[trigger] symlinks[b]).path == path;
            let i = lemma_file_source(root, entries, a);
            let j = lemma_symlink_source(root, entries, b);
            lemma_first_unique(root, entries, i, j);
        }
    }
}

proof fn lemma_files_distinct(root: Seq<char>, entries: Seq<Entry>)
    ensures
        forall|i: int, j: int|
            #![trigger files_of(root, entries)[i], files_of(root, entries)[j]]
            0 <= i < j < files_of(root, entries).len() ==> files_of(root, entries)[i].path
                != files_of(root, entries)[j].path,
    decreases entries.len(),
{
    if entries.len() > 0 {
        let before = entries.drop_last();
        let old_files = files_of(root, before);
        let files = files_of(root, entries);
        lemma_files_distinct(root, before);
        assert forall|i: int, j: int|
            #![trigger files[i], files[j]]
            0 <= i < j < files.len() implies files[i].path != files[j].path by {
            assert(files[i] == old_files[i]);
            if j < old_files.len() {
                assert(files[j] == old_files[j]);
            } else {
                let first = lemma_file_source(root, before, i);
                assert(entry_path(root, before[first]) == files[i].path);
            }
        }
    }
}

proof fn lemma_symlinks_distinct(root: Seq<char>, entries: Seq<Entry>)
    ensures
        forall|i: int, j: int|
            #![trigger symlinks_of(root, entries)[i], symlinks_of(root, entries)[j]]
            0 <= i < j < symlinks_of(root, entries).len() ==> symlinks_of(root, entries)[i].path
                != symlinks_of(root, entries)[j].path,
    decreases entries.len(),
{
    if entries.len() > 0 {
        let before = entries.drop_last();
        let old_links = symlinks_of(root, before);
        let links = symlinks_of(root, entries);
        lemma_symlinks_distinct(root, before);
        assert forall|i: int, j: int|
            #![trigger links[i], links[j]]
            0 <= i < j < links.len() implies links[i].path != links[j].path by {
            assert(links[i] == old_links[i]);
            if j < old_links.len() {
                assert(links[j] == old_links[j]);
            } else {
                let first = lemma_symlink_source(root, before, i);
                assert(entry_path(root, before[first]) == links[i].path);
            }
        }
    }
}

/// No directory other than the bundle itself is created where a file or a
/// symbolic link is.
pub proof fn law_dirs_stand_apart(
    root: Seq<char>,
    entries: Seq<Entry>,
    dirs: Seq<Dir>,
    path: Seq<char>,
)
    requires
        sorted_dirs(root, entries, dirs),
        has_dir(dirs, path),
        path != root_path(root),
    ensures
        !has_file(files_of(root, entries), path),
        !has_symlink(symlinks_of(root, entries), path),
{
    let files = files_of(root, entries);
    let symlinks = symlinks_of(root, entries);
    let listed = listed_dirs(root, entries);
    let paths = all_parents(root, entries);
    let needed = needed_dirs(root, entries);
    lemma_dirs_have(root, entries, dirs, path);
    lemma_added_from_paths(root, entries, paths);
    let k = choose|k: int| 0 <= k < needed.len() && (#[trigger] needed[k]).path == path;
    if has_file(files, path) {
        let a = choose|a: int| 0 <= a < files.len() && (#[trigger] files[a]).path == path;
        let i = lemma_file_source(root, entries, a);
        assert(taken(root, entries, path));
        if k < listed.len() {
            let j = lemma_dir_source(root, entries, k);
            lemma_first_unique(root, entries, i, j);
        } else {
            assert(needed[k] == added_dirs(root, entries, paths)[k - listed.len()]);
        }
    }
    if has_symlink(symlinks, path) {
        let a = choose|a: int| 0 <= a < symlinks.len() && (#[trigger] symlinks[a]).path == path;
        let i = lemma_symlink_source(root, entries, a);
        assert(taken(root, entries, path));
        if k < listed.len() {
            let j = lemma_dir_source(root, entries, k);
            lemma_first_unique(root, entries, i, j);
        } else {
            assert(needed[k] == added_dirs(root, entries, paths)[k - listed.len()]);
        }
    }
}

proof fn lemma_parents_of_entry(root: Seq<char>, entries: Seq<Entry>, i: int, path: Seq<char>)
    requires
        0 <= i < entries.len(),
        parents(root, entries[i]).contains(path),
    ensures
        all_parents(root, entries).contains(path),
    decreases entries.len(),
{
    let before = all_parents(root, entries.drop_last());
    let last = parents(root, entries.last());
    let now = all_parents(root, entries);
    if i == entries.len() - 1 {
        let k = choose|k: int| 0 <= k < last.len() && last[k] == path;
        assert(now[before.len() + k] == path);
    } else {
        assert(entries.drop_last()[i] == entries[i]);
        lemma_parents_of_entry(root, entries.drop_last(), i, path);
        let k = choose|k: int| 0 <= k < before.len() && before[k] == path;
        assert(now[k] == path);
    }
}

/// Each directory between the bundle and its entries lies above some entry.
proof fn lemma_entry_of_parent(root: Seq<char>, entries: Seq<Entry>, path: Seq<char>) -> (i: int)
    requires
        all_parents(root, entries).contains(path),
    ensures
        0 <= i < entries.len(),
        parents(root, entries[i]).contains(path),
    decreases entries.len(),
{
    let before = all_parents(root, entries.drop_last());
    let last = parents(root, entries.last());
    let now = all_parents(root, entries);
    let k = choose|k: int| 0 <= k < now.len() && now[k] == path;
    if k < before.len() {
        assert(before[k] == path);
        let i = lemma_entry_of_parent(root, entries.drop_last(), path);
        assert(entries.drop_last()[i] == entries[i]);
        i
    } else {
        assert(last[k - before.len()] == path);
        entries.len() - 1
    }
}

/// Every directory but the bundle itself is an entry or lies above one.
pub proof fn lemma_dir_origin(
    root: Seq<char>,
    entries: Seq<Entry>,
    dirs: Seq<Dir>,
    path: Seq<char>,
) -> (i: int)
    requires
        sorted_dirs(root, entries, dirs),
        has_dir(dirs, path),
        path != root_path(root),
    ensures
        0 <= i < entries.len(),
        (first_at(root, entries, i) && entry_path(root, entries[i]) == path) || parents(
            root,
            entries[i],
        ).contains(path),
{
    let listed = listed_dirs(root, entries);
    let paths = all_parents(root, entries);
    let needed = needed_dirs(root, entries);
    lemma_dirs_have(root, entries, dirs, path);
    lemma_added_from_paths(root, entries, paths);
    let k = choose|k: int| 0 <= k < needed.len() && (#[trigger] needed[k]).path == path;
    if k < listed.len() {
        assert(needed[k] == listed[k]);
        lemma_dir_source(root, entries, k)
    } else {
        assert(needed[k] == added_dirs(root, entries, paths)[k - listed.len()]);
        lemma_entry_of_parent(root, entries, path)
    }
}

/// Every directory between the bundle and an entry is created, unless the first
/// entry that lies there is no directory.
pub proof fn law_parents_are_created(
    root: Seq<char>,
    entries: Seq<Entry>,
    dirs: Seq<Dir>,
    i: int,
    path: Seq<char>,
)
    requires
        sorted_dirs(root, entries, dirs),
        0 <= i < entries.len(),
        parents(root, entries[i]).contains(path),
        forall|j: int|
            first_at(root, entries, j) && entry_path(root, #[trigger] entries[j]) == path
                ==> entries[j] is Directory,
    ensures
        has_dir(dirs, path),
{
    lemma_parents_of_entry(root, entries, i, path);
    lemma_added_from_paths(root, entries, all_parents(root, entries));
    if taken(root, entries, path) {
        let first = lemma_first_exists(root, entries, path);
        lemma_first_created(root, entries, first);
    }
    lemma_needed_have(root, entries, path);
    lemma_dirs_have(root, entries, dirs, path);
}

// ---------------------------------------------------------------------------
// What is created, seen from the entries
// ---------------------------------------------------------------------------

/// Whether bit `bit` of a mode is set.
pub open spec fn has_bit(mode: u16, bit: u16) -> bool {
    (mode >> bit) & 1 == 1
}

/// Whether `created` has the twelve permission bits of `given` and no other.
pub open spec fn same_permissions(created: u16, given: u16) -> bool {
    forall|bit: u16|
        bit < 16 ==> (#[trigger] has_bit(created, bit) <==> bit < 12 && has_bit(given, bit))
}

/// Whether a character of a host path becomes `c` on the volume.
pub open spec fn becomes(given: char, c: char) -> bool {
    c == if given == '\\' {
        '/'
    } else {
        given
    }
}

/// Whether `text` is `given`, character by character, with forward slashes.
pub open spec fn becomes_text(given: Seq<char>, text: Seq<char>) -> bool {
    given.len() == text.len() && forall|i: int|
        0 <= i < given.len() ==> becomes(given[i], #[trigger] text[i])
}

/// Whether `path` is the one of `relative` in the bundle called `root`: a
/// slash, the bundle's name and, where there is something behind it, another
/// slash and that.
pub open spec fn leads_to(path: Seq<char>, root: Seq<char>, relative: Seq<char>) -> bool {
    let name_end = 1 + root.len() as int;
    &&& name_end <= path.len()
    &&& path[0] == '/'
    &&& path.subrange(1, name_end) == root
    &&& relative.len() == 0 ==> path.len() == name_end
    &&& relative.len() > 0 ==> path.len() > name_end && path[name_end] == '/' && becomes_text(
        relative,
        path.skip(name_end + 1),
    )
}

/// The path of an entry within the bundle.
pub open spec fn path_within(item: ZipEntry) -> Seq<char> {
    match item {
        ZipEntry::File { relative_path, .. } => relative_path@,
        ZipEntry::Symlink { relative_path, .. } => relative_path@,
        ZipEntry::Directory { relative_path, .. } => relative_path@,
    }
}

/// Whether no entry before entry `i` comes to lie where that does.
pub open spec fn is_first(items: Seq<ZipEntry>, i: int) -> bool {
    0 <= i < items.len() && forall|j: int|
        0 <= j < i ==> !same_place(path_within(#[trigger] items[j]), path_within(items[i]))
}

/// Whether two paths differ at most in the kind of their slashes.
pub open spec fn same_place(a: Seq<char>, b: Seq<char>) -> bool {
    a.len() == b.len() && forall|i: int|
        0 <= i < a.len() ==> (#[trigger] a[i] == b[i] || (a[i] == '/' && b[i] == '\\') || (a[i]
            == '\\' && b[i] == '/'))
}

/// Whether each place of `at` comes behind those before it.
pub open spec fn ascends(at: Seq<int>) -> bool {
    forall|a: int, b: int| #![trigger at[a], at[b]] 0 <= a < b < at.len() ==> at[a] < at[b]
}

/// Whether a file is what entry `i` asks for.
pub open spec fn file_for(root: Seq<char>, items: Seq<ZipEntry>, i: int, file: FileEntry) -> bool {
    is_first(items, i) && match items[i] {
        ZipEntry::File { relative_path, zip_index, size, mode } => {
            &&& leads_to(file.path@, root, relative_path@)
            &&& file.zip_index == zip_index
            &&& file.size == size
            &&& same_permissions(file.mode, mode)
        },
        _ => false,
    }
}

/// Whether a symbolic link is what entry `i` asks for.
pub open spec fn symlink_for(
    root: Seq<char>,
    items: Seq<ZipEntry>,
    i: int,
    link: SymlinkEntry,
) -> bool {
    is_first(items, i) && match items[i] {
        ZipEntry::Symlink { relative_path, target, mode } => {
            &&& leads_to(link.path@, root, relative_path@)
            &&& becomes_text(target@, link.target@)
            &&& same_permissions(link.mode, mode)
        },
        _ => false,
    }
}

/// Whether a directory is what entry `i` asks for.
pub open spec fn dir_for(root: Seq<char>, items: Seq<ZipEntry>, i: int, dir: DirEntry) -> bool {
    is_first(items, i) && match items[i] {
        ZipEntry::Directory { relative_path, mode } => {
            &&& leads_to(dir.path@, root, relative_path@)
            &&& same_permissions(dir.mode, mode)
        },
        _ => false,
    }
}

proof fn lemma_permissions(given: u16)
    ensures
        same_permissions(given % 4096, given),
{
    assert forall|bit: u16| bit < 16 implies (#[trigger] has_bit(given % 4096, bit) <==> bit < 12
        && has_bit(given, bit)) by {
        assert(((given % 4096) >> bit) & 1 == 1 <==> bit < 12 && (given >> bit) & 1 == 1)
            by (bit_vector)
            requires
                bit < 16,
        ;
    }
}

proof fn lemma_slashed(given: Seq<char>)
    ensures
        becomes_text(given, slashed(given)),
{
}

proof fn lemma_leads_to(root: Seq<char>, relative: Seq<char>)
    ensures
        leads_to(placed_path(root, relative), root, relative),
{
    let path = placed_path(root, relative);
    let name_end = 1 + root.len() as int;
    reveal_strlit("/");
    lemma_slashed(relative);
    assert(path.subrange(1, name_end) =~= root);
    if relative.len() > 0 {
        assert(path.skip(name_end + 1) =~= slashed(relative));
    }
}

proof fn lemma_same_place(root: Seq<char>, a: Seq<char>, b: Seq<char>)
    ensures
        same_place(a, b) <==> placed_path(root, a) == placed_path(root, b),
{
    reveal_strlit("/");
    let n = root.len() as int + 2;
    if same_place(a, b) {
        assert forall|i: int| 0 <= i < a.len() implies slashed(a)[i] == slashed(b)[i] by {
            assert(a[i] == b[i] || (a[i] == '/' && b[i] == '\\') || (a[i] == '\\' && b[i] == '/'));
        }
        assert(slashed(a) =~= slashed(b));
    }
    if placed_path(root, a) == placed_path(root, b) {
        assert(slashed(a).len() == a.len() && slashed(b).len() == b.len());
        assert(a.len() > 0 ==> placed_path(root, a).len() == n + a.len());
        assert(b.len() > 0 ==> placed_path(root, b).len() == n + b.len());
        assert(root_path(root).len() == n - 1);
        assert(a.len() == b.len());
        if a.len() > 0 {
            assert(placed_path(root, a).skip(n) =~= slashed(a));
            assert(placed_path(root, b).skip(n) =~= slashed(b));
            assert forall|i: int| 0 <= i < a.len() implies (#[trigger] a[i] == b[i] || (a[i] == '/'
                && b[i] == '\\') || (a[i] == '\\' && b[i] == '/')) by {
                assert(slashed(a)[i] == slashed(b)[i]);
            }
        }
    }
}

/// Being the first entry at a path and being the first in a place is the same.
proof fn lemma_is_first(root: Seq<char>, items: Seq<ZipEntry>, i: int)
    ensures
        is_first(items, i) <==> first_at(root, zip_reader::entries_view(items), i),
{
    let entries = zip_reader::entries_view(items);
    if 0 <= i < items.len() {
        assert forall|j: int| 0 <= j < i implies (same_place(
            path_within(#[trigger] items[j]),
            path_within(items[i]),
        ) <==> entry_path(root, entries.take(i)[j]) == entry_path(root, entries[i])) by {
            assert(entries.take(i)[j] == entries[j]);
            lemma_same_place(root, path_within(items[j]), path_within(items[i]));
        }
        if !is_first(items, i) {
            let j = choose|j: int|
                0 <= j < i && same_place(path_within(#[trigger] items[j]), path_within(items[i]));
            assert(entry_path(root, entries.take(i)[j]) == entry_path(root, entries[i]));
        }
        if taken(root, entries.take(i), entry_path(root, entries[i])) {
            let j = choose|j: int|
                0 <= j < i && entry_path(root, #[trigger] entries.take(i)[j]) == entry_path(
                    root,
                    entries[i],
                );
            assert(same_place(path_within(items[j]), path_within(items[i])));
        }
    }
}

/// The entries that the files come from, in order.
proof fn lemma_file_origins(root: Seq<char>, entries: Seq<Entry>) -> (at: Seq<int>)
    ensures
        at.len() == files_of(root, entries).len(),
        ascends(at),
        forall|k: int|
            0 <= k < at.len() ==> first_at(root, entries, #[trigger] at[k]) && entries[at[k]] is File
                && files_of(root, entries)[k] == (File {
                path: entry_path(root, entries[at[k]]),
                zip_index: entries[at[k]]->zip_index,
                size: entries[at[k]]->size,
                mode: entries[at[k]]->File_mode % 4096,
            }),
        forall|i: int|
            first_at(root, entries, i) && (#[trigger] entries[i]) is File ==> at.contains(i),
    decreases entries.len(),
{
    let now = files_of(root, entries);
    if entries.len() == 0 {
        Seq::empty()
    } else {
        let before = entries.drop_last();
        let last = entries.len() - 1;
        let earlier = lemma_file_origins(root, before);
        let path = entry_path(root, entries.last());
        assert(before =~= entries.take(last));
        assert(entries[last] == entries.last());
        let at = if entries.last() is File && !taken(root, before, path) {
            earlier.push(last)
        } else {
            earlier
        };
        assert forall|k: int| 0 <= k < at.len() implies first_at(root, entries, #[trigger] at[k])
            && entries[at[k]] is File && now[k] == (File {
                path: entry_path(root, entries[at[k]]),
                zip_index: entries[at[k]]->zip_index,
                size: entries[at[k]]->size,
                mode: entries[at[k]]->File_mode % 4096,
        }) by {
            if k < earlier.len() {
                assert(at[k] == earlier[k]);
                lemma_first_extends(root, entries, earlier[k]);
            }
        }
        assert forall|i: int|
            first_at(root, entries, i) && (#[trigger] entries[i]) is File implies at.contains(
            i,
        ) by {
            if i < last {
                assert(before.take(i) =~= entries.take(i));
                assert(before[i] == entries[i]);
                assert(earlier.contains(i));
                let k = choose|k: int| 0 <= k < earlier.len() && earlier[k] == i;
                assert(at[k] == i);
            } else {
                assert(at[earlier.len() as int] == i);
            }
        }
        assert forall|a: int, b: int|
            #![trigger at[a], at[b]]
            0 <= a < b < at.len() implies at[a] < at[b] by {
            assert(at[a] == earlier[a]);
            assert(first_at(root, before, earlier[a]));
            if b < earlier.len() {
                assert(at[b] == earlier[b]);
            }
        }
        at
    }
}

/// The files that are created are those of the file entries: there is one for
/// each that is the first in its place, in the order of the entries, at the
/// entry's path, with its member of the archive, its size and exactly its
/// permissions.
pub proof fn law_files_are_those_of_the_entries(
    root: Seq<char>,
    items: Seq<ZipEntry>,
    files: Seq<FileEntry>,
)
    requires
        files_view(files) == files_of(root, zip_reader::entries_view(items)),
    ensures
        exists|at: Seq<int>|
            #![trigger ascends(at)]
            at.len() == files.len() && ascends(at) && (forall|k: int|
                0 <= k < at.len() ==> file_for(root, items, #[trigger] at[k], files[k])) && (
            forall|i: int|
                is_first(items, i) && (#[trigger] items[i]) is File ==> at.contains(i)),
{
    let entries = zip_reader::entries_view(items);
    let at = lemma_file_origins(root, entries);
    assert forall|k: int| 0 <= k < at.len() implies file_for(
        root,
        items,
        #[trigger] at[k],
        files[k],
    ) by {
        let i = at[k];
        assert(first_at(root, entries, i));
        lemma_is_first(root, items, i);
        assert(files_view(files)[k] == files[k]@);
        assert(entries[i] == items[i]@);
        lemma_permissions(entries[i]->File_mode);
        lemma_leads_to(root, path_within(items[i]));
    }
    assert forall|i: int| is_first(items, i) && (#[trigger] items[i]) is File implies at.contains(
        i,
    ) by {
        lemma_is_first(root, items, i);
        assert(entries[i] == items[i]@);
        assert(entries[i] is File);
    }
    assert(ascends(at));
}

/// The entries that the symbolic links come from, in order.
proof fn lemma_symlink_origins(root: Seq<char>, entries: Seq<Entry>) -> (at: Seq<int>)
    ensures
        at.len() == symlinks_of(root, entries).len(),
        ascends(at),
        forall|k: int|
            0 <= k < at.len() ==> first_at(root, entries, #[trigger] at[k]) && entries[at[k]] is Symlink
                && symlinks_of(root, entries)[k] == (Symlink {
                path: entry_path(root, entries[at[k]]),
                target: slashed(entries[at[k]]->target),
                mode: entries[at[k]]->Symlink_mode % 4096,
            }),
        forall|i: int|
            first_at(root, entries, i) && (#[trigger] entries[i]) is Symlink ==> at.contains(i),
    decreases entries.len(),
{
    let now = symlinks_of(root, entries);
    if entries.len() == 0 {
        Seq::empty()
    } else {
        let before = entries.drop_last();
        let last = entries.len() - 1;
        let earlier = lemma_symlink_origins(root, before);
        let path = entry_path(root, entries.last());
        assert(before =~= entries.take(last));
        assert(entries[last] == entries.last());
        let at = if entries.last() is Symlink && !taken(root, before, path) {
            earlier.push(last)
        } else {
            earlier
        };
        assert forall|k: int| 0 <= k < at.len() implies first_at(root, entries, #[trigger] at[k])
            && entries[at[k]] is Symlink && now[k] == (Symlink {
                path: entry_path(root, entries[at[k]]),
                target: slashed(entries[at[k]]->target),
                mode: entries[at[k]]->Symlink_mode % 4096,
        }) by {
            if k < earlier.len() {
                assert(at[k] == earlier[k]);
                lemma_first_extends(root, entries, earlier[k]);
            }
        }
        assert forall|i: int|
            first_at(root, entries, i) && (#[trigger] entries[i]) is Symlink implies at.contains(
            i,
        ) by {
            if i < last {
                assert(before.take(i) =~= entries.take(i));
                assert(before[i] == entries[i]);
                assert(earlier.contains(i));
                let k = choose|k: int| 0 <= k < earlier.len() && earlier[k] == i;
                assert(at[k] == i);
            } else {
                assert(at[earlier.len() as int] == i);
            }
        }
        assert forall|a: int, b: int|
            #![trigger at[a], at[b]]
            0 <= a < b < at.len() implies at[a] < at[b] by {
            assert(at[a] == earlier[a]);
            assert(first_at(root, before, earlier[a]));
            if b < earlier.len() {
                assert(at[b] == earlier[b]);
            }
        }
        at
    }
}

/// The symbolic links that are created are those of the link entries: there is
/// one for each that is the first in its place, in the order of the entries, at
/// the entry's path, with its target and exactly its permissions.
pub proof fn law_symlinks_are_those_of_the_entries(
    root: Seq<char>,
    items: Seq<ZipEntry>,
    symlinks: Seq<SymlinkEntry>,
)
    requires
        symlinks_view(symlinks) == symlinks_of(root, zip_reader::entries_view(items)),
    ensures
        exists|at: Seq<int>|
            #![trigger ascends(at)]
            at.len() == symlinks.len() && ascends(at) && (forall|k: int|
                0 <= k < at.len() ==> symlink_for(root, items, #[trigger] at[k], symlinks[k])) && (
            forall|i: int|
                is_first(items, i) && (#[trigger] items[i]) is Symlink ==> at.contains(i)),
{
    let entries = zip_reader::entries_view(items);
    let at = lemma_symlink_origins(root, entries);
    assert forall|k: int| 0 <= k < at.len() implies symlink_for(
        root,
        items,
        #[trigger] at[k],
        symlinks[k],
    ) by {
        let i = at[k];
        assert(first_at(root, entries, i));
        lemma_is_first(root, items, i);
        assert(symlinks_view(symlinks)[k] == symlinks[k]@);
        assert(entries[i] == items[i]@);
        lemma_permissions(entries[i]->Symlink_mode);
        lemma_leads_to(root, path_within(items[i]));
        lemma_slashed(entries[i]->target);
    }
    assert forall|i: int|
        is_first(items, i) && (#[trigger] items[i]) is Symlink implies at.contains(i) by {
        lemma_is_first(root, items, i);
        assert(entries[i] == items[i]@);
        assert(entries[i] is Symlink);
    }
    assert(ascends(at));
}

/// The entries that the listed directories come from, in order.
proof fn lemma_listed_origins(root: Seq<char>, entries: Seq<Entry>) -> (at: Seq<int>)
    ensures
        at.len() == listed_dirs(root, entries).len(),
        ascends(at),
        forall|k: int|
            0 <= k < at.len() ==> first_at(root, entries, #[trigger] at[k]) && entries[at[k]] is Directory
                && listed_dirs(root, entries)[k] == (Dir {
                path: entry_path(root, entries[at[k]]),
                mode: entries[at[k]]->Directory_mode % 4096,
            }),
        forall|i: int|
            first_at(root, entries, i) && (#[trigger] entries[i]) is Directory ==> at.contains(i),
    decreases entries.len(),
{
    let now = listed_dirs(root, entries);
    if entries.len() == 0 {
        Seq::empty()
    } else {
        let before = entries.drop_last();
        let last = entries.len() - 1;
        let earlier = lemma_listed_origins(root, before);
        let path = entry_path(root, entries.last());
        assert(before =~= entries.take(last));
        assert(entries[last] == entries.last());
        let at = if entries.last() is Directory && !taken(root, before, path) {
            earlier.push(last)
        } else {
            earlier
        };
        assert forall|k: int| 0 <= k < at.len() implies first_at(root, entries, #[trigger] at[k])
            && entries[at[k]] is Directory && now[k] == (Dir {
                path: entry_path(root, entries[at[k]]),
                mode: entries[at[k]]->Directory_mode % 4096,
        }) by {
            if k < earlier.len() {
                assert(at[k] == earlier[k]);
                lemma_first_extends(root, entries, earlier[k]);
            }
        }
        assert forall|i: int|
            first_at(root, entries, i) && (#[trigger] entries[i]) is Directory implies at.contains(
            i,
        ) by {
            if i < last {
                assert(before.take(i) =~= entries.take(i));
                assert(before[i] == entries[i]);
                assert(earlier.contains(i));
                let k = choose|k: int| 0 <= k < earlier.len() && earlier[k] == i;
                assert(at[k] == i);
            } else {
                assert(at[earlier.len() as int] == i);
            }
        }
        assert forall|a: int, b: int|
            #![trigger at[a], at[b]]
            0 <= a < b < at.len() implies at[a] < at[b] by {
            assert(at[a] == earlier[a]);
            assert(first_at(root, before, earlier[a]));
            if b < earlier.len() {
                assert(at[b] == earlier[b]);
            }
        }
        at
    }
}

/// Every directory that is created is the one that a directory entry asks for,
/// with exactly its permissions, or one with mode 755 at a path where no entry
/// comes to lie.
pub proof fn law_directories_are_those_of_the_entries(
    root: Seq<char>,
    items: Seq<ZipEntry>,
    dirs: Seq<DirEntry>,
    k: int,
)
    requires
        sorted_dirs(root, zip_reader::entries_view(items), dirs_view(dirs)),
        0 <= k < dirs.len(),
    ensures
        (exists|i: int| #[trigger] dir_for(root, items, i, dirs[k])) || (dirs[k].mode == 0o755 && ((
        forall|i: int|
            0 <= i < items.len() ==> !leads_to(
                dirs[k].path@,
                root,
                path_within(#[trigger] items[i]),
            )) || leads_to(dirs[k].path@, root, Seq::empty()))),
{
    let entries = zip_reader::entries_view(items);
    let all = dirs_view(dirs);
    let needed = needed_dirs(root, entries);
    let listed = listed_dirs(root, entries);
    let paths = all_parents(root, entries);
    let at = lemma_listed_origins(root, entries);
    assert(all[k] == dirs[k]@);
    lemma_leads_to(root, Seq::empty());
    lemma_added_from_paths(root, entries, paths);
    if has_dir(needed, root_path(root)) || k > 0 {
        let n = if has_dir(needed, root_path(root)) {
            lemma_same_member(all, needed, k);
            choose|n: int| 0 <= n < needed.len() && #[trigger] needed[n] == all[k]
        } else {
            assert(all.skip(1)[k - 1] == all[k]);
            lemma_same_member(all.skip(1), needed, k - 1);
            choose|n: int| 0 <= n < needed.len() && #[trigger] needed[n] == all[k]
        };
        if n < listed.len() {
            let i = at[n];
            assert(needed[n] == listed[n]);
            assert(first_at(root, entries, i));
            lemma_is_first(root, items, i);
            assert(entries[i] == items[i]@);
            lemma_permissions(entries[i]->Directory_mode);
            lemma_leads_to(root, path_within(items[i]));
            assert(dir_for(root, items, i, dirs[k]));
        } else {
            let dir = added_dirs(root, entries, paths)[n - listed.len()];
            assert(needed[n] == dir);
            lemma_added_mode(root, entries, paths, n - listed.len());
            assert forall|i: int| 0 <= i < items.len() implies !leads_to(
                dirs[k].path@,
                root,
                path_within(#[trigger] items[i]),
            ) by {
                if leads_to(dirs[k].path@, root, path_within(items[i])) {
                    lemma_leads_to(root, path_within(items[i]));
                    lemma_leads_once(
                        root,
                        path_within(items[i]),
                        dirs[k].path@,
                        placed_path(root, path_within(items[i])),
                    );
                    assert(entry_path(root, entries[i]) == dirs[k].path@);
                }
            }
        }
    }
}

proof fn lemma_added_mode(root: Seq<char>, entries: Seq<Entry>, paths: Seq<Seq<char>>, i: int)
    requires
        0 <= i < added_dirs(root, entries, paths).len(),
    ensures
        added_dirs(root, entries, paths)[i].mode == 0o755,
    decreases paths.len(),
{
    if i < added_dirs(root, entries, paths.drop_last()).len() {
        lemma_added_mode(root, entries, paths.drop_last(), i);
    }
}

proof fn lemma_leads_once(root: Seq<char>, relative: Seq<char>, a: Seq<char>, b: Seq<char>)
    requires
        leads_to(a, root, relative),
        leads_to(b, root, relative),
    ensures
        a == b,
{
    let n = 1 + root.len() as int;
    assert forall|i: int| 0 <= i < a.len() implies a[i] == b[i] by {
        if 0 < i < n {
            assert(a.subrange(1, n)[i - 1] == b.subrange(1, n)[i - 1]);
        } else if i > n {
            assert(becomes(relative[i - n - 1], a.skip(n + 1)[i - n - 1]));
            assert(becomes(relative[i - n - 1], b.skip(n + 1)[i - n - 1]));
        }
    }
    assert(a =~= b);
}

/// A directory that is created where no entry comes to lie is the bundle itself,
/// or stands under some of the first names of an entry's path, but not under
/// all.
pub proof fn law_added_directories_lie_above_entries(
    root: Seq<char>,
    items: Seq<ZipEntry>,
    dirs: Seq<DirEntry>,
    k: int,
)
    requires
        sorted_dirs(root, zip_reader::entries_view(items), dirs_view(dirs)),
        0 <= k < dirs.len(),
        forall|i: int|
            0 <= i < items.len() ==> !leads_to(
                dirs[k].path@,
                root,
                path_within(#[trigger] items[i]),
            ),
    ensures
        leads_to(dirs[k].path@, root, Seq::empty()) || exists|i: int, m: int|
            #![trigger components(slashed(path_within(items[i]))).take(m)]
            0 <= i < items.len() && 0 < m < components(slashed(path_within(items[i]))).len()
                && dirs[k].path@ == joined(
                seq!['/'] + root,
                components(slashed(path_within(items[i]))).take(m),
            ),
{
    let entries = zip_reader::entries_view(items);
    let path = dirs[k].path@;
    reveal_strlit("/");
    assert("/"@ =~= seq!['/']);
    lemma_leads_to(root, Seq::empty());
    assert(dirs_view(dirs)[k] == dirs[k]@);
    if path != root_path(root) {
        assert(has_dir(dirs_view(dirs), path));
        let i = lemma_dir_origin(root, entries, dirs_view(dirs), path);
        assert(entries[i] == items[i]@);
        lemma_leads_to(root, path_within(items[i]));
        assert(parents(root, entries[i]).contains(path));
        let all = parents(root, entries[i]);
        let parts = components(slashed(path_within(items[i])));
        let j = choose|j: int| 0 <= j < all.len() && all[j] == path;
        let m = j + 1;
        assert(path == joined(seq!['/'] + root, parts.take(m)));
    }
}

/// Of two directories the one that is created first has fewer slashes in its
/// path or, where both have as many, comes first in lexicographic order.
pub proof fn law_shallow_directories_come_first(
    root: Seq<char>,
    items: Seq<ZipEntry>,
    dirs: Seq<DirEntry>,
    i: int,
    j: int,
)
    requires
        sorted_dirs(root, zip_reader::entries_view(items), dirs_view(dirs)),
        0 <= i < j < dirs.len(),
    ensures
        ({
            let a = dirs[i].path@;
            let b = dirs[j].path@;
            let more = text::count_of(b, '/') - text::count_of(a, '/');
            more > 0 || (more == 0 && text::precedes(a, b))
        }),
{
    law_dirs_are_in_order(root, zip_reader::entries_view(items), dirs_view(dirs));
    assert(dirs_view(dirs)[i] == dirs[i]@);
    assert(dirs_view(dirs)[j] == dirs[j]@);
}

} // verus!

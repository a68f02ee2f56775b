//! The steps that fill a volume, and what to do when filling it fails.
//!
//! The steps are carried out by the program, which owns the filesystem writer;
//! which steps there are, in which order and with which paths and modes, is
//! decided here.
use crate::bud1::LEAF_LIMIT;
use crate::decorations;
use crate::decorations::{Decorations, DmgDecorations};
use crate::ds_store;
use crate::ds_store::DsStoreError;
use crate::gpt::FilesystemKind;
use crate::text;
use crate::tree;
use crate::tree::{Dir, DirEntry, File, FileEntry, SortedEntries, Symlink, SymlinkEntry};
use crate::zip_reader;
use crate::zip_reader::{Entry, ZipEntry};
use std::path::PathBuf;
use vstd::prelude::*;

verus! {

broadcast use vstd::string::group_string_axioms;

/// Default UID for files in the DMG (first macOS user).
pub const DEFAULT_UID: u32 = 501;

/// Default GID for files in the DMG (macOS "staff" group).
pub const DEFAULT_GID: u32 = 20;

/// The Finder flag of a folder with a custom icon.
pub const K_HAS_CUSTOM_ICON: u16 = 0x0400;

// ---------------------------------------------------------------------------
// The icon of the app
// ---------------------------------------------------------------------------

/// Whether an entry is an icon of the bundle: an `.icns` file below
/// `Contents/Resources/`.
pub open spec fn is_icon(entry: Entry) -> bool {
    entry is File && text::contains(entry.relative_path(), "Contents/Resources/"@)
        && text::ends_with(text::lowered(entry.relative_path()), ".icns"@)
}

/// Whether an icon's file name says that it is the app's.
pub open spec fn is_app_icon(entry: Entry) -> bool {
    let name = text::lowered(text::after_last(entry.relative_path(), '/'));
    is_icon(entry) && (text::contains(name, "app"@) || text::contains(name, "icon"@))
}

/// Whether some entry has a name that says that it is the app's icon.
pub open spec fn has_app_icon(entries: Seq<Entry>) -> bool {
    exists|i: int| 0 <= i < entries.len() && is_app_icon(#[trigger] entries[i])
}

/// Whether entry `i` is the icon to use: the first whose name says so, or the
/// first of all where there is none.
pub open spec fn is_chosen_icon(entries: Seq<Entry>, i: int) -> bool {
    &&& 0 <= i < entries.len()
    &&& is_icon(entries[i])
    &&& if has_app_icon(entries) {
        is_app_icon(entries[i]) && forall|j: int|
            0 <= j < i ==> !is_app_icon(#[trigger] entries[j])
    } else {
        forall|j: int| 0 <= j < i ==> !is_icon(#[trigger] entries[j])
    }
}

/// The place of the icon to use, if there is an icon.
pub open spec fn chosen_icon(entries: Seq<Entry>) -> Option<int> {
    if exists|i: int| is_chosen_icon(entries, i) {
        Some(choose|i: int| is_chosen_icon(entries, i))
    } else {
        None
    }
}

/// There is at most one icon to use.
proof fn lemma_icon_unique(entries: Seq<Entry>, i: int, j: int)
    requires
        is_chosen_icon(entries, i),
        is_chosen_icon(entries, j),
    ensures
        i == j,
{
}

fn looks_like_icon(path: &str) -> (r: bool)
    ensures
        r == (text::contains(path@, "Contents/Resources/"@) && text::ends_with(
            text::lowered(path@),
            ".icns"@,
        )),
{
    text::has(path, "Contents/Resources/") && text::has_suffix(
        text::to_lower(path).as_str(),
        ".icns",
    )
}

fn named_for_app(path: &str) -> (r: bool)
    ensures
        r == ({
            let name = text::lowered(text::after_last(path@, '/'));
            text::contains(name, "app"@) || text::contains(name, "icon"@)
        }),
{
    let name = text::to_lower(text::tail_after(path, '/').as_str());
    text::has(name.as_str(), "app") || text::has(name.as_str(), "icon")
}

/// The place of the icon to use, if there is an icon.
fn icon_place(items: &Vec<ZipEntry>) -> (r: Option<usize>)
    ensures
        match r {
            Some(i) => is_chosen_icon(zip_reader::entries_view(items@), i as int),
            None => forall|i: int|
                0 <= i < items@.len() ==> !is_icon(
                    #[trigger] zip_reader::entries_view(items@)[i],
                ),
        },
{
    let ghost all = zip_reader::entries_view(items@);
    let mut first: Option<usize> = None;
    let mut i: usize = 0;
    while i < items.len()
        invariant
            i <= items@.len(),
            all == zip_reader::entries_view(items@),
            forall|j: int| 0 <= j < i ==> !is_app_icon(#[trigger] all[j]),
            match first {
                Some(f) => f < i && is_icon(all[f as int]) && forall|j: int|
                    0 <= j < f ==> !is_icon(#[trigger] all[j]),
                None => forall|j: int| 0 <= j < i ==> !is_icon(#[trigger] all[j]),
            },
        decreases items@.len() - i,
    {
        assert(all[i as int] == items@[i as int]@);
        if let ZipEntry::File { relative_path, .. } = &items[i] {
            if looks_like_icon(relative_path.as_str()) {
                if named_for_app(relative_path.as_str()) {
                    assert(is_app_icon(all[i as int]));
                    return Some(i);
                }
                if first.is_none() {
                    first = Some(i);
                }
            }
        }
        i += 1;
    }
    first
}

/// Find the app's icon file in the ZIP entries.
///
/// Searches for `.icns` files under `Contents/Resources/` in the app bundle.
/// Prefers files whose name contains "app" or "icon", otherwise uses the first
/// `.icns` found.
pub fn find_app_icon(items: &Vec<ZipEntry>) -> (r: Option<(usize, &String, u64)>)
    ensures
        match chosen_icon(zip_reader::entries_view(items@)) {
            Some(i) => {
                &&& r is Some
                &&& zip_reader::entries_view(items@)[i] matches Entry::File { path, zip_index, size, .. }
                    && (r->0).0 == zip_index && (r->0).1@ == path && (r->0).2 == size
            },
            None => r is None,
        },
        r is None ==> forall|i: int|
            0 <= i < items@.len() ==> !is_icon(#[trigger] zip_reader::entries_view(items@)[i]),
{
    let ghost all = zip_reader::entries_view(items@);
    match icon_place(items) {
        Some(i) => {
            proof {
                lemma_icon_unique(all, i as int, chosen_icon(all)->0);
            }
            match &items[i] {
                ZipEntry::File { relative_path, zip_index, size, .. } => Some(
                    (*zip_index, relative_path, *size),
                ),
                _ => None,
            }
        },
        None => None,
    }
}

// ---------------------------------------------------------------------------
// Steps
// ---------------------------------------------------------------------------

/// One step of filling a volume. All that is created belongs to the default
/// user and group.
pub enum VolumeStep<'a> {
    /// Create a directory.
    Dir { path: String, mode: u16 },
    /// Create a file with the content of an archive member.
    File { path: String, zip_index: usize, size: u64, mode: u16 },
    /// Create a symbolic link.
    Symlink { path: String, target: String, mode: u16 },
    /// Create the directory that HFS+ keeps its private data in.
    PrivateData,
    /// Create a directory, and in it a file with the content of a host file.
    Background {
        source: &'a PathBuf,
        dir: String,
        dir_mode: u16,
        filename: String,
        path: String,
        mode: u16,
    },
    /// Create a file with the icon that a host file holds.
    HostIcon { source: &'a PathBuf, path: String, mode: u16 },
    /// Create a file with an icon of the bundle.
    BundleIcon { path: String, zip_index: usize, size: u64, mode: u16 },
    /// Mark the root folder as one with a custom icon.
    CustomIcon,
    /// Create the directories that are not there yet, and a file with the
    /// content of a host file.
    ExtraFile {
        source: &'a PathBuf,
        path: String,
        parents: Vec<String>,
        dir_mode: u16,
        mode: u16,
    },
    /// Create a file with the Finder layout.
    DsStore { content: Vec<u8>, path: String, mode: u16 },
}

/// What a [`VolumeStep`] is.
pub enum Step {
    Dir { path: Seq<char>, mode: u16 },
    File { path: Seq<char>, zip_index: usize, size: u64, mode: u16 },
    Symlink { path: Seq<char>, target: Seq<char>, mode: u16 },
    PrivateData,
    Background {
        source: PathBuf,
        dir: Seq<char>,
        dir_mode: u16,
        filename: Seq<char>,
        path: Seq<char>,
        mode: u16,
    },
    HostIcon { source: PathBuf, path: Seq<char>, mode: u16 },
    BundleIcon { path: Seq<char>, zip_index: usize, size: u64, mode: u16 },
    CustomIcon,
    ExtraFile {
        source: PathBuf,
        path: Seq<char>,
        parents: Seq<Seq<char>>,
        dir_mode: u16,
        mode: u16,
    },
    DsStore { content: Seq<u8>, path: Seq<char>, mode: u16 },
}

impl<'a> View for VolumeStep<'a> {
    type V = Step;

    open spec fn view(&self) -> Step {
        match self {
            VolumeStep::Dir { path, mode } => Step::Dir { path: path@, mode: *mode },
            VolumeStep::File { path, zip_index, size, mode } => Step::File {
                path: path@,
                zip_index: *zip_index,
                size: *size,
                mode: *mode,
            },
            VolumeStep::Symlink { path, target, mode } => Step::Symlink {
                path: path@,
                target: target@,
                mode: *mode,
            },
            VolumeStep::PrivateData => Step::PrivateData,
            VolumeStep::Background {
                source,
                dir,
                dir_mode,
                filename,
                path,
                mode,
            } => Step::Background {
                source: **source,
                dir: dir@,
                dir_mode: *dir_mode,
                filename: filename@,
                path: path@,
                mode: *mode,
            },
            VolumeStep::HostIcon { source, path, mode } => Step::HostIcon {
                source: **source,
                path: path@,
                mode: *mode,
            },
            VolumeStep::BundleIcon { path, zip_index, size, mode } => Step::BundleIcon {
                path: path@,
                zip_index: *zip_index,
                size: *size,
                mode: *mode,
            },
            VolumeStep::CustomIcon => Step::CustomIcon,
            VolumeStep::ExtraFile { source, path, parents, dir_mode, mode } => Step::ExtraFile {
                source: **source,
                path: path@,
                parents: text::views(parents@),
                dir_mode: *dir_mode,
                mode: *mode,
            },
            VolumeStep::DsStore { content, path, mode } => Step::DsStore {
                content: content@,
                path: path@,
                mode: *mode,
            },
        }
    }
}

/// What a list of steps is.
pub open spec fn steps_view(steps: Seq<VolumeStep>) -> Seq<Step> {
    Seq::new(steps.len(), |i: int| steps[i]@)
}

/// The directories above `target`, outermost first.
pub open spec fn dirs_above(target: Seq<char>) -> Seq<Seq<char>> {
    match text::last_position(target, '/') {
        None => Seq::empty(),
        Some(at) => {
            let parts = tree::components(target.take(at));
            Seq::new(parts.len(), |k: int| tree::joined(Seq::empty(), parts.take(k + 1)))
        },
    }
}

/// The steps for the contents of the bundle: directories in their order, then
/// files, then symbolic links.
pub open spec fn bundle_steps(
    dirs: Seq<Dir>,
    files: Seq<File>,
    symlinks: Seq<Symlink>,
) -> Seq<Step> {
    Seq::new(dirs.len(), |i: int| Step::Dir { path: dirs[i].path, mode: dirs[i].mode }) + Seq::new(
        files.len(),
        |i: int|
            Step::File {
                path: files[i].path,
                zip_index: files[i].zip_index,
                size: files[i].size,
                mode: files[i].mode,
            },
    ) + Seq::new(
        symlinks.len(),
        |i: int|
            Step::Symlink {
                path: symlinks[i].path,
                target: symlinks[i].target,
                mode: symlinks[i].mode,
            },
    )
}

/// The steps for what HFS+ itself expects on a volume.
pub open spec fn private_steps(kind: FilesystemKind) -> Seq<Step> {
    match kind {
        FilesystemKind::HfsPlus => seq![
            Step::PrivateData,
            Step::Dir { path: "/.HFS+ Private Directory Data"@, mode: 0o700 },
        ],
        FilesystemKind::Apfs => Seq::empty(),
    }
}

/// The steps for the drop links.
pub open spec fn link_steps(d: Decorations) -> Seq<Step> {
    (if d.app_drop_link is Some {
        seq![
            Step::Symlink { path: "/Applications"@, target: "/Applications"@, mode: 0o755 },
        ]
    } else {
        Seq::empty()
    }) + (if d.ql_drop_link is Some {
        seq![
            Step::Symlink { path: "/QuickLook"@, target: "/Library/QuickLook"@, mode: 0o755 },
        ]
    } else {
        Seq::empty()
    })
}

/// The step for the background image.
pub open spec fn background_steps(d: Decorations) -> Seq<Step> {
    match d.background {
        None => Seq::empty(),
        Some((source, filename)) => seq![
            Step::Background {
                source,
                dir: "/.background"@,
                dir_mode: 0o755,
                filename,
                path: "/.background/"@ + filename,
                mode: 0o644,
            },
        ],
    }
}

/// The steps for the volume icon: the one of the decorations, or else the icon
/// of the app, if there is one.
pub open spec fn icon_steps(d: Decorations, entries: Seq<Entry>) -> Seq<Step> {
    let path = "/.VolumeIcon.icns"@;
    if d.volicon is Some {
        seq![Step::HostIcon { source: d.volicon->0, path, mode: 0o644 }, Step::CustomIcon]
    } else {
        match chosen_icon(entries) {
            None => Seq::empty(),
            Some(i) => match entries[i] {
                Entry::File { zip_index, size, .. } => seq![
                    Step::BundleIcon { path, zip_index, size, mode: 0o644 },
                    Step::CustomIcon,
                ],
                _ => Seq::empty(),
            },
        }
    }
}

/// The step for one extra file.
pub open spec fn extra_step(source: PathBuf, target: Seq<char>) -> Step {
    Step::ExtraFile {
        source,
        path: target,
        parents: dirs_above(target),
        dir_mode: 0o755,
        mode: 0o644,
    }
}

/// The steps for the extra files.
pub open spec fn extra_steps(d: Decorations) -> Seq<Step> {
    Seq::new(d.extra_files.len(), |i: int| extra_step(d.extra_files[i].0, d.extra_files[i].1))
}

/// The step for the Finder layout, with the file for these decorations and the
/// bundle called `root`.
pub open spec fn store_steps(d: Decorations, root: Seq<char>) -> Seq<Step> {
    if d.needs_ds_store() {
        seq![
            Step::DsStore {
                content: ds_store::layout_settings(d, root).file(),
                path: "/.DS_Store"@,
                mode: 0o644,
            },
        ]
    } else {
        Seq::empty()
    }
}

/// All steps, in order.
pub open spec fn all_steps(
    kind: FilesystemKind,
    dirs: Seq<Dir>,
    files: Seq<File>,
    symlinks: Seq<Symlink>,
    d: Decorations,
    root: Seq<char>,
    entries: Seq<Entry>,
) -> Seq<Step> {
    bundle_steps(dirs, files, symlinks) + private_steps(kind) + link_steps(d) + background_steps(d)
        + icon_steps(d, entries) + extra_steps(d) + store_steps(d, root)
}

fn push_step<'a>(steps: &mut Vec<VolumeStep<'a>>, step: VolumeStep<'a>)
    ensures
        steps_view(final(steps)@) == steps_view(old(steps)@).push(step@),
{
    let ghost added = step@;
    steps.push(step);
    assert(steps_view(steps@) =~= steps_view(old(steps)@).push(added));
}

fn push_bundle_steps(steps: &mut Vec<VolumeStep>, sorted: &SortedEntries)
    ensures
        steps_view(final(steps)@) == steps_view(old(steps)@) + bundle_steps(
            tree::dirs_view(sorted.dirs@),
            tree::files_view(sorted.files@),
            tree::symlinks_view(sorted.symlinks@),
        ),
{
    let ghost start = steps_view(steps@);
    let ghost all = bundle_steps(
        tree::dirs_view(sorted.dirs@),
        tree::files_view(sorted.files@),
        tree::symlinks_view(sorted.symlinks@),
    );
    let ghost nd = sorted.dirs@.len() as int;
    let ghost nf = sorted.files@.len() as int;
    assert(start + all.take(0) =~= start);
    let mut i: usize = 0;
    while i < sorted.dirs.len()
        invariant
            i <= sorted.dirs@.len(),
            nd == sorted.dirs@.len(),
            nf == sorted.files@.len(),
            all == bundle_steps(
                tree::dirs_view(sorted.dirs@),
                tree::files_view(sorted.files@),
                tree::symlinks_view(sorted.symlinks@),
            ),
            steps_view(steps@) == start + all.take(i as int),
        decreases sorted.dirs@.len() - i,
    {
        let dir: &DirEntry = &sorted.dirs[i];
        push_step(steps, VolumeStep::Dir { path: dir.path.clone(), mode: dir.mode });
        assert((start + all.take(i as int)).push(all[i as int]) =~= start + all.take(i + 1));
        i += 1;
    }
    let mut j: usize = 0;
    while j < sorted.files.len()
        invariant
            j <= sorted.files@.len(),
            nd == sorted.dirs@.len(),
            nf == sorted.files@.len(),
            all == bundle_steps(
                tree::dirs_view(sorted.dirs@),
                tree::files_view(sorted.files@),
                tree::symlinks_view(sorted.symlinks@),
            ),
            steps_view(steps@) == start + all.take(nd + j),
        decreases sorted.files@.len() - j,
    {
        let file: &FileEntry = &sorted.files[j];
        push_step(
            steps,
            VolumeStep::File {
                path: file.path.clone(),
                zip_index: file.zip_index,
                size: file.size,
                mode: file.mode,
            },
        );
        assert((start + all.take(nd + j)).push(all[nd + j]) =~= start + all.take(nd + j + 1));
        j += 1;
    }
    let mut k: usize = 0;
    while k < sorted.symlinks.len()
        invariant
            k <= sorted.symlinks@.len(),
            nd == sorted.dirs@.len(),
            nf == sorted.files@.len(),
            all == bundle_steps(
                tree::dirs_view(sorted.dirs@),
                tree::files_view(sorted.files@),
                tree::symlinks_view(sorted.symlinks@),
            ),
            steps_view(steps@) == start + all.take(nd + nf + k),
        decreases sorted.symlinks@.len() - k,
    {
        let link: &SymlinkEntry = &sorted.symlinks[k];
        push_step(
            steps,
            VolumeStep::Symlink {
                path: link.path.clone(),
                target: link.target.clone(),
                mode: link.mode,
            },
        );
        assert((start + all.take(nd + nf + k)).push(all[nd + nf + k]) =~= start + all.take(
            nd + nf + k + 1,
        ));
        k += 1;
    }
    assert(all.take(nd + nf + k) =~= all);
}

fn push_private_steps(steps: &mut Vec<VolumeStep>, kind: FilesystemKind)
    ensures
        steps_view(final(steps)@) == steps_view(old(steps)@) + private_steps(kind),
{
    match kind {
        FilesystemKind::HfsPlus => {
            push_step(steps, VolumeStep::PrivateData);
            push_step(
                steps,
                VolumeStep::Dir {
                    path: "/.HFS+ Private Directory Data".to_owned(),
                    mode: 0o700,
                },
            );
        },
        FilesystemKind::Apfs => {},
    }
    assert(steps_view(steps@) =~= steps_view(old(steps)@) + private_steps(kind));
}

fn push_link_steps(steps: &mut Vec<VolumeStep>, decorations: &DmgDecorations)
    ensures
        steps_view(final(steps)@) == steps_view(old(steps)@) + link_steps(decorations@),
{
    if decorations.app_drop_link().is_some() {
        push_step(
            steps,
            VolumeStep::Symlink {
                path: "/Applications".to_owned(),
                target: "/Applications".to_owned(),
                mode: 0o755,
            },
        );
    }
    if decorations.ql_drop_link().is_some() {
        push_step(
            steps,
            VolumeStep::Symlink {
                path: "/QuickLook".to_owned(),
                target: "/Library/QuickLook".to_owned(),
                mode: 0o755,
            },
        );
    }
    assert(steps_view(steps@) =~= steps_view(old(steps)@) + link_steps(decorations@));
}

fn push_background_steps<'a>(steps: &mut Vec<VolumeStep<'a>>, decorations: &'a DmgDecorations)
    ensures
        steps_view(final(steps)@) == steps_view(old(steps)@) + background_steps(decorations@),
{
    if let Some(background) = decorations.background() {
        push_step(
            steps,
            VolumeStep::Background {
                source: &background.0,
                dir: "/.background".to_owned(),
                dir_mode: 0o755,
                filename: background.1.clone(),
                path: text::concat("/.background/", background.1.as_str()),
                mode: 0o644,
            },
        );
    }
    assert(steps_view(steps@) =~= steps_view(old(steps)@) + background_steps(decorations@));
}

fn push_icon_steps<'a>(
    steps: &mut Vec<VolumeStep<'a>>,
    decorations: &'a DmgDecorations,
    items: &Vec<ZipEntry>,
)
    ensures
        steps_view(final(steps)@) == steps_view(old(steps)@) + icon_steps(
            decorations@,
            zip_reader::entries_view(items@),
        ),
{
    if let Some(source) = decorations.volicon() {
        push_step(
            steps,
            VolumeStep::HostIcon { source, path: "/.VolumeIcon.icns".to_owned(), mode: 0o644 },
        );
        push_step(steps, VolumeStep::CustomIcon);
    } else if let Some((zip_index, _path, size)) = find_app_icon(items) {
        push_step(
            steps,
            VolumeStep::BundleIcon {
                path: "/.VolumeIcon.icns".to_owned(),
                zip_index,
                size,
                mode: 0o644,
            },
        );
        push_step(steps, VolumeStep::CustomIcon);
    }
    assert(steps_view(steps@) =~= steps_view(old(steps)@) + icon_steps(
        decorations@,
        zip_reader::entries_view(items@),
    ));
}

/// The directories above `target`, outermost first.
pub fn parent_dirs(target: &str) -> (r: Vec<String>)
    ensures
        text::views(r@) == dirs_above(target@),
{
    let chars = text::chars_of(target);
    let at: usize = match text::rfind(chars.as_slice(), '/') {
        Some(at) => at,
        None => {
            let none: Vec<String> = Vec::new();
            assert(text::views(none@) =~= Seq::empty());
            return none;
        },
    };
    let parent = text::piece_of(chars.as_slice(), 0, at);
    assert(parent@ =~= target@.take(at as int));
    let parts = tree::path_components(parent.as_str());
    let ghost names = text::views(parts@);
    let ghost above = dirs_above(target@);
    let mut current: String = String::new();
    let mut r: Vec<String> = Vec::new();
    let mut k: usize = 0;
    assert(names.take(0) =~= Seq::empty());
    assert(current@ =~= Seq::empty());
    assert(text::views(r@) =~= above.take(0));
    while k < parts.len()
        invariant
            k <= parts@.len(),
            names == text::views(parts@),
            above == Seq::new(
                names.len(),
                |k: int| tree::joined(Seq::empty(), names.take(k + 1)),
            ),
            current@ == tree::joined(Seq::empty(), names.take(k as int)),
            text::views(r@) == above.take(k as int),
        decreases parts@.len() - k,
    {
        current.append("/");
        current.append(parts[k].as_str());
        assert(names.take(k + 1).drop_last() =~= names.take(k as int));
        assert(current@ == above[k as int]);
        let ghost before = text::views(r@);
        r.push(current.clone());
        assert(text::views(r@) =~= before.push(above[k as int]));
        k += 1;
        assert(text::views(r@) =~= above.take(k as int));
    }
    assert(above.take(k as int) =~= above);
    r
}

fn push_extra_steps<'a>(steps: &mut Vec<VolumeStep<'a>>, decorations: &'a DmgDecorations)
    ensures
        steps_view(final(steps)@) == steps_view(old(steps)@) + extra_steps(decorations@),
{
    let ghost start = steps_view(steps@);
    let ghost all = extra_steps(decorations@);
    let files = decorations.extra_files();
    let mut i: usize = 0;
    assert(start + all.take(0) =~= start);
    while i < files.len()
        invariant
            i <= files@.len(),
            decorations::extras(files@) == decorations@.extra_files,
            all == extra_steps(decorations@),
            steps_view(steps@) == start + all.take(i as int),
        decreases files@.len() - i,
    {
        let target: &String = &files[i].1;
        assert(decorations::extras(files@)[i as int] == (files@[i as int].0, target@));
        push_step(
            steps,
            VolumeStep::ExtraFile {
                source: &files[i].0,
                path: target.clone(),
                parents: parent_dirs(target.as_str()),
                dir_mode: 0o755,
                mode: 0o644,
            },
        );
        assert((start + all.take(i as int)).push(all[i as int]) =~= start + all.take(i + 1));
        i += 1;
    }
    assert(files@.len() == decorations::extras(files@).len());
    assert(all.take(i as int) =~= all);
}

/// Lists the steps that fill a volume, in order: what the bundle called
/// `root_name` holds, what the filesystem itself expects, and the decorations.
/// There are none where the Finder layout takes more room than it can have.
pub fn creation_plan<'a>(
    kind: FilesystemKind,
    sorted: &SortedEntries,
    decorations: &'a DmgDecorations,
    root_name: &str,
    items: &Vec<ZipEntry>,
) -> (r: Result<Vec<VolumeStep<'a>>, DsStoreError>)
    ensures
        match r {
            Ok(steps) => {
                &&& steps_view(steps@) == all_steps(
                    kind,
                    tree::dirs_view(sorted.dirs@),
                    tree::files_view(sorted.files@),
                    tree::symlinks_view(sorted.symlinks@),
                    decorations@,
                    root_name@,
                    zip_reader::entries_view(items@),
                )
                &&& decorations@.needs_ds_store() ==> layout_fits(decorations@, root_name@)
            },
            Err(e) => {
                &&& decorations@.needs_ds_store()
                &&& !layout_fits(decorations@, root_name@)
                &&& e is TooLarge
            },
        },
{
    let mut steps: Vec<VolumeStep<'a>> = Vec::new();
    assert(steps_view(steps@) =~= Seq::empty());
    push_bundle_steps(&mut steps, sorted);
    push_private_steps(&mut steps, kind);
    push_link_steps(&mut steps, decorations);
    push_background_steps(&mut steps, decorations);
    push_icon_steps(&mut steps, decorations, items);
    push_extra_steps(&mut steps, decorations);
    if decorations.needs_ds_store() {
        match ds_store::layout_file(decorations, root_name) {
            Ok(content) => {
                push_step(
                    &mut steps,
                    VolumeStep::DsStore { content, path: "/.DS_Store".to_owned(), mode: 0o644 },
                );
            },
            Err(e) => {
                return Err(e);
            },
        }
    }
    assert(steps_view(steps@) =~= all_steps(
        kind,
        tree::dirs_view(sorted.dirs@),
        tree::files_view(sorted.files@),
        tree::symlinks_view(sorted.symlinks@),
        decorations@,
        root_name@,
        zip_reader::entries_view(items@),
    ));
    Ok(steps)
}

/// Whether the records of the Finder layout fit in one leaf.
pub open spec fn layout_fits(d: Decorations, root: Seq<char>) -> bool {
    ds_store::layout_settings(d, root).leaf_size() <= LEAF_LIMIT
}

/// The path that a step for the contents of the bundle creates.
pub open spec fn created_path(step: Step) -> Option<Seq<char>> {
    match step {
        Step::Dir { path, .. } => Some(path),
        Step::File { path, .. } => Some(path),
        Step::Symlink { path, .. } => Some(path),
        _ => None,
    }
}

/// Within the bundle, a directory is created before everything that lies below
/// it.
pub proof fn law_directories_before_contents(
    root: Seq<char>,
    entries: Seq<Entry>,
    dirs: Seq<Dir>,
    i: int,
    j: int,
)
    requires
        tree::sorted_dirs(root, entries, dirs),
        ({
            let steps = bundle_steps(
                dirs,
                tree::files_of(root, entries),
                tree::symlinks_of(root, entries),
            );
            &&& 0 <= i < steps.len()
            &&& 0 <= j < steps.len()
            &&& steps[i] is Dir
            &&& tree::below(created_path(steps[i])->0, created_path(steps[j])->0)
        }),
    ensures
        i < j,
{
    let files = tree::files_of(root, entries);
    let symlinks = tree::symlinks_of(root, entries);
    let steps = bundle_steps(dirs, files, symlinks);
    if i >= dirs.len() {
        if i < dirs.len() + files.len() {
            assert(steps[i] is File);
        } else {
            assert(steps[i] is Symlink);
        }
    }
    assert(created_path(steps[i]) == Some(dirs[i].path));
    if j < dirs.len() {
        assert(created_path(steps[j]) == Some(dirs[j].path));
        tree::law_contents_come_after(root, entries, dirs, i, j);
    }
}

// ---------------------------------------------------------------------------
// Failures
// ---------------------------------------------------------------------------

/// Whether a message says that the volume ran out of space.
pub open spec fn out_of_space(kind: FilesystemKind, message: Seq<char>) -> bool {
    ||| text::contains(message, "no free blocks"@)
    ||| text::contains(message, "out of blocks"@)
    ||| text::contains(message, "allocation failed"@)
    ||| text::contains(message, "block allocation"@)
    ||| match kind {
        FilesystemKind::HfsPlus => text::contains(message, "HFS+ format failed"@),
        FilesystemKind::Apfs => text::contains(message, "not enough space"@),
    }
}

/// How often a build is tried again.
pub const MAX_RETRIES: u32 = 3;

/// One attempt at building an image: how many came before it, and the size.
#[derive(Clone, Copy, Debug, PartialEq, Eq, Structural)]
pub struct Attempt {
    pub number: u32,
    pub image_size: u64,
}

/// Whether a message says that the volume ran out of space.
pub fn is_out_of_space(kind: FilesystemKind, message: &str) -> (r: bool)
    ensures
        r == out_of_space(kind, message@),
{
    let special: bool = match kind {
        FilesystemKind::HfsPlus => text::has(message, "HFS+ format failed"),
        FilesystemKind::Apfs => text::has(message, "not enough space"),
    };
    special || text::has(message, "no free blocks") || text::has(message, "out of blocks")
        || text::has(message, "allocation failed") || text::has(message, "block allocation")
}

/// The first attempt at building an image of the estimated size.
pub fn first_attempt(estimated_size: u64) -> (r: Attempt)
    ensures
        r == (Attempt { number: 0, image_size: estimated_size }),
{
    Attempt { number: 0, image_size: estimated_size }
}

/// The attempt after another one.
pub open spec fn following(attempt: Attempt) -> Attempt {
    Attempt {
        number: (attempt.number + 1) as u32,
        image_size: (attempt.image_size * 2) as u64,
    }
}

/// What follows an attempt that failed: one more at twice the size, where the
/// volume ran out of space and tries are left.
pub fn next_attempt(kind: FilesystemKind, attempt: Attempt, message: &str) -> (r: Option<Attempt>)
    requires
        out_of_space(kind, message@) && attempt.number < MAX_RETRIES ==> attempt.image_size * 2
            <= u64::MAX,
    ensures
        r is Some <==> out_of_space(kind, message@) && attempt.number < MAX_RETRIES,
        r is Some ==> r->0.number == attempt.number + 1,
        r is Some ==> r->0.image_size == attempt.image_size * 2,
        r is Some ==> r->0 == following(attempt),
        r is Some <==> out_of_space(kind, message@) && attempt.number < 3,
{
    if attempt.number < MAX_RETRIES && is_out_of_space(kind, message) {
        Some(Attempt { number: attempt.number + 1, image_size: attempt.image_size * 2 })
    } else {
        None
    }
}

/// Whether an attempt is one that follows from an estimate: the n-th has the
/// estimated size times two to the power of n.
pub open spec fn is_attempt(attempt: Attempt, estimated_size: int) -> bool {
    attempt.number <= MAX_RETRIES && attempt.image_size == estimated_size
        * vstd::arithmetic::power2::pow2(attempt.number as nat)
}

/// The first attempt follows from the estimate, and so does each attempt after
/// one that does.
pub proof fn law_attempts_double(estimated_size: u64, attempt: Attempt, next: Attempt)
    requires
        is_attempt(attempt, estimated_size as int),
        attempt.number < MAX_RETRIES,
        next.number == attempt.number + 1,
        next.image_size == attempt.image_size * 2,
    ensures
        is_attempt(Attempt { number: 0, image_size: estimated_size }, estimated_size as int),
        is_attempt(next, estimated_size as int),
{
    vstd::arithmetic::power2::lemma2_to64();
    vstd::arithmetic::power2::lemma_pow2_unfold(next.number as nat);
    let p = vstd::arithmetic::power2::pow2(attempt.number as nat);
    assert(estimated_size * 1 == estimated_size);
    assert(vstd::arithmetic::power2::pow2(0) == 1);
    assert(estimated_size * p * 2 == estimated_size * (2 * p)) by (nonlinear_arith);
}

/// No attempt is larger than eight times the estimate.
pub proof fn law_attempts_are_bounded(estimated_size: int, attempt: Attempt)
    requires
        is_attempt(attempt, estimated_size),
        0 <= estimated_size,
    ensures
        attempt.image_size <= 8 * estimated_size,
{
    vstd::arithmetic::power2::lemma2_to64();
    let p = vstd::arithmetic::power2::pow2(attempt.number as nat);
    assert(attempt.number == 0 || attempt.number == 1 || attempt.number == 2 || attempt.number
        == 3);
    assert(p <= 8);
    assert(estimated_size * p <= 8 * estimated_size) by (nonlinear_arith)
        requires
            0 <= estimated_size,
            p <= 8,
    ;
}

/// The name of a filesystem in messages.
pub open spec fn fs_name(kind: FilesystemKind) -> Seq<char> {
    match kind {
        FilesystemKind::HfsPlus => "HFS+"@,
        FilesystemKind::Apfs => "APFS"@,
    }
}

/// The name of a filesystem in messages.
pub fn filesystem_name(kind: FilesystemKind) -> (r: &'static str)
    ensures
        r@ == fs_name(kind),
{
    match kind {
        FilesystemKind::HfsPlus => "HFS+",
        FilesystemKind::Apfs => "APFS",
    }
}

/// What is said of the last attempt that failed, with sizes in whole MB.
pub open spec fn failure_text(
    kind: FilesystemKind,
    attempt: Attempt,
    estimated_size: u64,
) -> Seq<char> {
    fs_name(kind) + " build failed after "@ + text::decimal_nat((attempt.number + 1) as nat)
        + " attempts (image size "@ + text::decimal_nat((attempt.image_size / 0x10_0000) as nat)
        + " MB, estimated "@ + text::decimal_nat((estimated_size / 0x10_0000) as nat) + " MB)"@
}

/// What is said of the last attempt that failed.
pub fn failure_message(kind: FilesystemKind, attempt: Attempt, estimated_size: u64) -> (r: String)
    ensures
        r@ == failure_text(kind, attempt, estimated_size),
{
    let mut r: String = filesystem_name(kind).to_owned();
    r.append(" build failed after ");
    r.append(text::unsigned_text(attempt.number as u64 + 1).as_str());
    r.append(" attempts (image size ");
    r.append(text::unsigned_text(attempt.image_size / 0x10_0000).as_str());
    r.append(" MB, estimated ");
    r.append(text::unsigned_text(estimated_size / 0x10_0000).as_str());
    r.append(" MB)");
    r
}

/// Whether a message of the filesystem writer says that a directory is there
/// already, which is no failure when directories above a file are created.
pub fn is_already_there(message: &str) -> (r: bool)
    ensures
        r == text::contains(message@, "already exists"@),
{
    text::has(message, "already exists")
}

// ---------------------------------------------------------------------------
// What is put on a volume
// ---------------------------------------------------------------------------

/// Whether `word` stands somewhere in `name`.
pub open spec fn occurs(word: Seq<char>, name: Seq<char>) -> bool {
    exists|before: Seq<char>, after: Seq<char>| name == #[trigger] (before + word + after)
}

/// Whether an entry can be the volume's icon: a file somewhere below
/// `Contents/Resources/` with a name that ends in `.icns`, in any case.
pub open spec fn can_be_icon(item: ZipEntry) -> bool {
    match item {
        ZipEntry::File { relative_path, .. } => occurs("Contents/Resources/"@, relative_path@)
            && exists|stem: Seq<char>| text::lowered(relative_path@) == #[trigger] (stem
            + ".icns"@),
        _ => false,
    }
}

/// Whether the file name of an entry has "app" or "icon" in it, in any case.
pub open spec fn is_named_for_app(item: ZipEntry) -> bool {
    match item {
        ZipEntry::File { relative_path, .. } => exists|dir: Seq<char>, name: Seq<char>|
            #![trigger is_file_name(relative_path@, dir, name)]
            is_file_name(relative_path@, dir, name) && (occurs("app"@, text::lowered(name))
                || occurs("icon"@, text::lowered(name))),
        _ => false,
    }
}

/// Whether a path has `name` behind its last slash and `dir` up to that.
pub open spec fn is_file_name(path: Seq<char>, dir: Seq<char>, name: Seq<char>) -> bool {
    path == dir + name && !name.contains('/') && (dir.len() == 0 || dir.last() == '/')
}

proof fn lemma_occurs(word: Seq<char>, name: Seq<char>)
    ensures
        text::contains(name, word) <==> occurs(word, name),
{
    if text::contains(name, word) {
        let at = choose|at: int| text::stands_at(name, word, at);
        assert(name =~= name.take(at) + word + name.skip(at + word.len()));
    }
    if occurs(word, name) {
        let (before, after) = choose|before: Seq<char>, after: Seq<char>|
            name == #[trigger] (before + word + after);
        let at = before.len() as int;
        assert(name.subrange(at, at + word.len()) =~= word);
        assert(text::stands_at(name, word, at));
    }
}

proof fn lemma_ends(name: Seq<char>, suffix: Seq<char>)
    ensures
        text::ends_with(name, suffix) <==> exists|stem: Seq<char>| name == #[trigger] (stem
            + suffix),
{
    if text::ends_with(name, suffix) {
        let n = name.len() - suffix.len();
        assert(name =~= name.take(n) + suffix);
    }
    if exists|stem: Seq<char>| name == #[trigger] (stem + suffix) {
        let stem = choose|stem: Seq<char>| name == #[trigger] (stem + suffix);
        assert(name.skip(name.len() - suffix.len()) =~= suffix);
    }
}

proof fn lemma_last_slash(path: Seq<char>)
    ensures
        match text::last_position(path, '/') {
            Some(at) => 0 <= at < path.len() && path[at] == '/' && forall|i: int|
                at < i < path.len() ==> path[i] != '/',
            None => forall|i: int| 0 <= i < path.len() ==> path[i] != '/',
        },
    decreases path.len(),
{
    if path.len() > 0 {
        lemma_last_slash(path.drop_last());
        assert forall|i: int| 0 <= i < path.len() - 1 implies path[i] == path.drop_last()[i] by {}
    }
}

proof fn lemma_file_name(path: Seq<char>, dir: Seq<char>, name: Seq<char>)
    ensures
        is_file_name(path, path.take(path.len() - text::after_last(path, '/').len()), text::after_last(path, '/')),
        is_file_name(path, dir, name) ==> name == text::after_last(path, '/'),
{
    let found = text::after_last(path, '/');
    let n = path.len() - found.len();
    lemma_last_slash(path);
    match text::last_position(path, '/') {
        Some(at) => {
            assert(path =~= path.take(n) + found);
            assert(path.take(n).last() == path[at]);
            assert forall|i: int| 0 <= i < found.len() implies found[i] != '/' by {
                assert(found[i] == path[at + 1 + i]);
            }
        },
        None => {
            assert(path =~= path.take(0) + found);
        },
    }
    if is_file_name(path, dir, name) {
        let m = dir.len() as int;
        assert forall|i: int| m <= i < path.len() implies path[i] != '/' by {
            assert(path[i] == name[i - m]);
            assert(name.contains(name[i - m]));
        }
        if m > 0 {
            assert(path[m - 1] == dir.last());
        }
        assert(name =~= path.skip(m));
        assert(found =~= path.skip(n));
    }
}

proof fn lemma_icon(item: ZipEntry)
    ensures
        is_icon(item@) <==> can_be_icon(item),
        is_app_icon(item@) <==> can_be_icon(item) && is_named_for_app(item),
{
    if let ZipEntry::File { relative_path, .. } = item {
        let path = relative_path@;
        let name = text::after_last(path, '/');
        lemma_occurs("Contents/Resources/"@, path);
        lemma_ends(text::lowered(path), ".icns"@);
        lemma_occurs("app"@, text::lowered(name));
        lemma_occurs("icon"@, text::lowered(name));
        let dir = path.take(path.len() - name.len());
        lemma_file_name(path, dir, name);
        if is_named_for_app(item) {
            let (d, n) = choose|d: Seq<char>, n: Seq<char>|
                #![trigger is_file_name(path, d, n)]
                is_file_name(path, d, n) && (occurs("app"@, text::lowered(n)) || occurs(
                    "icon"@,
                    text::lowered(n),
                ));
            lemma_file_name(path, d, n);
        }
    }
}

/// Whether entry `i` is the icon to use: the first that can be an icon and is
/// named for the app or, where there is no such entry, the first that can be an
/// icon.
pub open spec fn is_best_icon(items: Seq<ZipEntry>, i: int) -> bool {
    &&& 0 <= i < items.len()
    &&& can_be_icon(items[i])
    &&& forall|j: int|
        0 <= j < i && can_be_icon(#[trigger] items[j]) ==> !is_named_for_app(items[j])
            && is_named_for_app(items[i])
    &&& !is_named_for_app(items[i]) ==> forall|j: int|
        0 <= j < items.len() ==> !(can_be_icon(#[trigger] items[j]) && is_named_for_app(items[j]))
}

/// The icon that is chosen is the best one, and there is one wherever some
/// entry can be an icon.
pub proof fn law_best_icon_is_chosen(items: Seq<ZipEntry>)
    ensures
        match chosen_icon(zip_reader::entries_view(items)) {
            Some(i) => is_best_icon(items, i),
            None => forall|j: int| 0 <= j < items.len() ==> !can_be_icon(#[trigger] items[j]),
        },
{
    let entries = zip_reader::entries_view(items);
    assert forall|j: int| 0 <= j < items.len() implies (is_icon(entries[j]) <==> can_be_icon(
        #[trigger] items[j],
    )) && (is_app_icon(entries[j]) <==> can_be_icon(items[j]) && is_named_for_app(items[j])) by {
        lemma_icon(items[j]);
    }
    match chosen_icon(entries) {
        Some(i) => {
            assert(is_chosen_icon(entries, i));
            assert forall|j: int| 0 <= j < i && can_be_icon(
                #[trigger] items[j],
            ) implies !is_named_for_app(items[j]) && is_named_for_app(items[i]) by {
                assert(is_icon(entries[j]));
            }
            if !is_named_for_app(items[i]) {
                assert forall|j: int| 0 <= j < items.len() implies !(can_be_icon(
                    #[trigger] items[j],
                ) && is_named_for_app(items[j])) by {
                    if is_app_icon(entries[j]) {
                        assert(has_app_icon(entries));
                    }
                }
            }
        },
        None => {
            if exists|j: int| 0 <= j < items.len() && can_be_icon(#[trigger] items[j]) {
                let j = choose|j: int| 0 <= j < items.len() && can_be_icon(#[trigger] items[j]);
                lemma_some_icon(entries, j);
            }
        },
    }
}

proof fn lemma_some_icon(entries: Seq<Entry>, j: int)
    requires
        0 <= j < entries.len(),
        is_icon(entries[j]),
    ensures
        exists|i: int| is_chosen_icon(entries, i),
{
    let i = if has_app_icon(entries) {
        let k = choose|k: int| 0 <= k < entries.len() && is_app_icon(#[trigger] entries[k]);
        lemma_first_app_icon(entries, k)
    } else {
        lemma_first_icon(entries, j)
    };
    assert(is_chosen_icon(entries, i));
}

proof fn lemma_first_app_icon(entries: Seq<Entry>, k: int) -> (i: int)
    requires
        0 <= k < entries.len(),
        is_app_icon(entries[k]),
    ensures
        0 <= i <= k,
        is_app_icon(entries[i]),
        forall|j: int| 0 <= j < i ==> !is_app_icon(#[trigger] entries[j]),
    decreases k,
{
    if exists|j: int| 0 <= j < k && is_app_icon(#[trigger] entries[j]) {
        let j = choose|j: int| 0 <= j < k && is_app_icon(#[trigger] entries[j]);
        lemma_first_app_icon(entries, j)
    } else {
        k
    }
}

proof fn lemma_first_icon(entries: Seq<Entry>, k: int) -> (i: int)
    requires
        0 <= k < entries.len(),
        is_icon(entries[k]),
    ensures
        0 <= i <= k,
        is_icon(entries[i]),
        forall|j: int| 0 <= j < i ==> !is_icon(#[trigger] entries[j]),
    decreases k,
{
    if exists|j: int| 0 <= j < k && is_icon(#[trigger] entries[j]) {
        let j = choose|j: int| 0 <= j < k && is_icon(#[trigger] entries[j]);
        lemma_first_icon(entries, j)
    } else {
        k
    }
}

/// The contents of the bundle come first, each once: all directories in their
/// order, then all files, then all symbolic links, each with its path, its
/// permissions and what it holds.
pub proof fn law_bundle_is_put_on_the_volume(
    kind: FilesystemKind,
    sorted: SortedEntries,
    d: Decorations,
    root: Seq<char>,
    items: Seq<ZipEntry>,
    steps: Seq<VolumeStep<'_>>,
)
    requires
        steps_view(steps) == all_steps(
            kind,
            tree::dirs_view(sorted.dirs@),
            tree::files_view(sorted.files@),
            tree::symlinks_view(sorted.symlinks@),
            d,
            root,
            zip_reader::entries_view(items),
        ),
    ensures
        ({
            let dirs = sorted.dirs@;
            let files = sorted.files@;
            let links = sorted.symlinks@;
            let nd = dirs.len() as int;
            let nf = files.len() as int;
            &&& steps.len() >= nd + nf + links.len()
            &&& forall|i: int|
                0 <= i < nd ==> (#[trigger] steps[i] matches VolumeStep::Dir { path, mode }
                    && path@ == dirs[i].path@ && mode == dirs[i].mode)
            &&& forall|i: int|
                0 <= i < nf ==> (#[trigger] steps[nd + i] matches VolumeStep::File {
                    path,
                    zip_index,
                    size,
                    mode,
                } && path@ == files[i].path@ && zip_index == files[i].zip_index && size
                    == files[i].size && mode == files[i].mode)
            &&& forall|i: int|
                0 <= i < links.len() ==> (#[trigger] steps[nd + nf + i] matches VolumeStep::Symlink {
                    path,
                    target,
                    mode,
                } && path@ == links[i].path@ && target@ == links[i].target@ && mode
                    == links[i].mode)
        }),
{
    let view = steps_view(steps);
    let dirs = tree::dirs_view(sorted.dirs@);
    let files = tree::files_view(sorted.files@);
    let links = tree::symlinks_view(sorted.symlinks@);
    let bundle = bundle_steps(dirs, files, links);
    let nd = dirs.len() as int;
    let nf = files.len() as int;
    assert(view.len() == steps.len());
    assert(bundle.len() == nd + nf + links.len());
    assert forall|i: int| 0 <= i < bundle.len() implies steps[i]@ == bundle[i] by {
        assert(view[i] == steps[i]@);
    }
    assert forall|i: int| 0 <= i < nd implies (#[trigger] steps[i] matches VolumeStep::Dir {
        path,
        mode,
    } && path@ == sorted.dirs@[i].path@ && mode == sorted.dirs@[i].mode) by {
        assert(steps[i]@ == bundle[i]);
        assert(dirs[i] == sorted.dirs@[i]@);
    }
    assert forall|i: int| 0 <= i < nf implies (#[trigger] steps[nd + i] matches VolumeStep::File {
        path,
        zip_index,
        size,
        mode,
    } && path@ == sorted.files@[i].path@ && zip_index == sorted.files@[i].zip_index && size
        == sorted.files@[i].size && mode == sorted.files@[i].mode) by {
        assert(steps[nd + i]@ == bundle[nd + i]);
        assert(files[i] == sorted.files@[i]@);
    }
    assert forall|i: int| 0 <= i < links.len() implies (
    #[trigger] steps[nd + nf + i] matches VolumeStep::Symlink { path, target, mode } && path@
        == sorted.symlinks@[i].path@ && target@ == sorted.symlinks@[i].target@ && mode
        == sorted.symlinks@[i].mode) by {
        assert(steps[nd + nf + i]@ == bundle[nd + nf + i]);
        assert(links[i] == sorted.symlinks@[i]@);
    }
}

/// Whether a step creates this symbolic link, with mode 755.
pub open spec fn makes_link(step: VolumeStep<'_>, at: Seq<char>, to: Seq<char>) -> bool {
    step matches VolumeStep::Symlink { path, target, mode } && path@ == at && target@ == to && mode
        == 0o755
}

/// Whether a step puts the background image below `/.background`, under its
/// name.
pub open spec fn makes_background(
    step: VolumeStep<'_>,
    image: PathBuf,
    name: Seq<char>,
) -> bool {
    step matches VolumeStep::Background { source, dir, dir_mode, filename, path, mode } && *source
        == image && dir@ == "/.background"@ && dir_mode == 0o755 && filename@ == name && path@
        == "/.background/"@ + name && mode == 0o644
}

/// Whether a step puts the icon of a host file on the volume.
pub open spec fn makes_host_icon(step: VolumeStep<'_>, icon: PathBuf) -> bool {
    step matches VolumeStep::HostIcon { source, path, mode } && *source == icon && path@
        == "/.VolumeIcon.icns"@ && mode == 0o644
}

/// Whether a step puts the icon of an entry on the volume.
pub open spec fn makes_bundle_icon(step: VolumeStep<'_>, item: ZipEntry) -> bool {
    step matches VolumeStep::BundleIcon { path, zip_index, size, mode } && path@
        == "/.VolumeIcon.icns"@ && mode == 0o644 && match item {
        ZipEntry::File { zip_index: index, size: length, .. } => zip_index == index && size
            == length,
        _ => false,
    }
}

/// Whether a step puts an extra file at its target, below directories of mode
/// 755.
pub open spec fn makes_extra_file(step: VolumeStep<'_>, extra: (PathBuf, Seq<char>)) -> bool {
    step matches VolumeStep::ExtraFile { source, path, parents, dir_mode, mode } && *source
        == extra.0 && path@ == extra.1 && text::views(parents@) == dirs_above(extra.1) && dir_mode
        == 0o755 && mode == 0o644
}

/// Whether a step puts a file with the Finder layout on the volume.
pub open spec fn makes_layout(step: VolumeStep<'_>, layout: Seq<u8>) -> bool {
    step matches VolumeStep::DsStore { content, path, mode } && content@ == layout && path@
        == "/.DS_Store"@ && mode == 0o644
}

/// Whether the steps from `from` on put the decorations on the volume, in this
/// order and nothing else: the link to the applications and the one for
/// QuickLook, the background, an icon and the mark for it, the extra files and
/// the Finder layout, each where the decorations ask for it.
pub open spec fn puts_decorations(
    steps: Seq<VolumeStep<'_>>,
    from: int,
    d: Decorations,
    items: Seq<ZipEntry>,
    layout: Seq<u8>,
) -> bool {
    let some_icon = exists|i: int| 0 <= i < items.len() && can_be_icon(#[trigger] items[i]);
    let a = from + if d.app_drop_link is Some {
        1int
    } else {
        0
    };
    let b = a + if d.ql_drop_link is Some {
        1int
    } else {
        0
    };
    let c = b + if d.background is Some {
        1int
    } else {
        0
    };
    let e = c + if d.volicon is Some || some_icon {
        2int
    } else {
        0
    };
    let f = e + d.extra_files.len() as int;
    let g = f + if d.needs_ds_store() {
        1int
    } else {
        0
    };
    &&& steps.len() == g
    &&& d.app_drop_link is Some ==> makes_link(steps[from], "/Applications"@, "/Applications"@)
    &&& d.ql_drop_link is Some ==> makes_link(steps[a], "/QuickLook"@, "/Library/QuickLook"@)
    &&& d.background is Some ==> makes_background(
        steps[b],
        (d.background->0).0,
        (d.background->0).1,
    )
    &&& d.volicon is Some ==> makes_host_icon(steps[c], d.volicon->0) && steps[c + 1] is CustomIcon
    &&& d.volicon is None && some_icon ==> (exists|i: int| #[trigger]
        is_best_icon(items, i) && makes_bundle_icon(steps[c], items[i])) && steps[c
        + 1] is CustomIcon
    &&& forall|i: int|
        0 <= i < d.extra_files.len() ==> makes_extra_file(
            #[trigger] steps[e + i],
            d.extra_files[i],
        )
    &&& d.needs_ds_store() ==> makes_layout(steps[f], layout)
}

/// Behind the contents of the bundle and what HFS+ itself expects, the plan puts
/// the decorations on the volume, and ends.
#[verifier::rlimit(60)]
pub proof fn law_decorations_are_put_on_the_volume(
    kind: FilesystemKind,
    sorted: SortedEntries,
    d: Decorations,
    root: Seq<char>,
    items: Seq<ZipEntry>,
    steps: Seq<VolumeStep<'_>>,
)
    requires
        steps_view(steps) == all_steps(
            kind,
            tree::dirs_view(sorted.dirs@),
            tree::files_view(sorted.files@),
            tree::symlinks_view(sorted.symlinks@),
            d,
            root,
            zip_reader::entries_view(items),
        ),
    ensures
        ({
            let bundle = (sorted.dirs@.len() + sorted.files@.len() + sorted.symlinks@.len()) as int;
            let layout = ds_store::layout_settings(d, root).file();
            match kind {
                FilesystemKind::HfsPlus => {
                    &&& steps[bundle] is PrivateData
                    &&& steps[bundle + 1] matches VolumeStep::Dir { path, mode } && path@
                        == "/.HFS+ Private Directory Data"@ && mode == 0o700
                    &&& puts_decorations(steps, bundle + 2, d, items, layout)
                },
                FilesystemKind::Apfs => puts_decorations(steps, bundle, d, items, layout),
            }
        }),
{
    let entries = zip_reader::entries_view(items);
    let dirs = tree::dirs_view(sorted.dirs@);
    let files = tree::files_view(sorted.files@);
    let links = tree::symlinks_view(sorted.symlinks@);
    let view = steps_view(steps);
    let s0 = bundle_steps(dirs, files, links);
    let s1 = s0 + private_steps(kind);
    let s2 = s1 + link_steps(d);
    let s3 = s2 + background_steps(d);
    let s4 = s3 + icon_steps(d, entries);
    let s5 = s4 + extra_steps(d);
    let s6 = s5 + store_steps(d, root);
    assert(view == s6);
    assert(view.len() == steps.len());
    assert forall|i: int| 0 <= i < steps.len() implies (#[trigger] steps[i])@ == s6[i] by {
        assert(view[i] == steps[i]@);
    }
    law_best_icon_is_chosen(items);
    assert(chosen_icon(entries) is Some <==> exists|i: int|
        0 <= i < items.len() && can_be_icon(#[trigger] items[i]));
    if let Some(i) = chosen_icon(entries) {
        assert(is_best_icon(items, i));
        assert(entries[i] == items[i]@);
        assert(items[i] is File);
        assert(icon_steps(d, entries).len() == 2);
        if d.volicon is None {
            assert(makes_bundle_icon(steps[s3.len() as int], items[i]));
        }
    }
    let e = s4.len() as int;
    assert forall|i: int| 0 <= i < d.extra_files.len() implies makes_extra_file(
        #[trigger] steps[e + i],
        d.extra_files[i],
    ) by {
        assert(s6[e + i] == extra_step(d.extra_files[i].0, d.extra_files[i].1));
    }
}

/// Each attempt has twice the size of the one before, and is counted: the one
/// after the n-th is the (n+1)-th.
pub proof fn law_next_attempt_is_twice_as_large(attempt: Attempt)
    requires
        attempt.number < 3,
        attempt.image_size <= u64::MAX / 2,
    ensures
        following(attempt).image_size == attempt.image_size + attempt.image_size,
        following(attempt).number == attempt.number + 1,
{
}

/// A message says that the volume ran out of space exactly where one of these
/// phrases stands in it.
pub proof fn law_out_of_space_is_told_by_phrases(message: Seq<char>)
    ensures
        ({
            let either = occurs("no free blocks"@, message) || occurs("out of blocks"@, message)
                || occurs("allocation failed"@, message) || occurs("block allocation"@, message);
            &&& out_of_space(FilesystemKind::HfsPlus, message) <==> either || occurs(
                "HFS+ format failed"@,
                message,
            )
            &&& out_of_space(FilesystemKind::Apfs, message) <==> either || occurs(
                "not enough space"@,
                message,
            )
        }),
{
    lemma_occurs("no free blocks"@, message);
    lemma_occurs("out of blocks"@, message);
    lemma_occurs("allocation failed"@, message);
    lemma_occurs("block allocation"@, message);
    lemma_occurs("HFS+ format failed"@, message);
    lemma_occurs("not enough space"@, message);
}

/// The message on a failure names the filesystem, counts the attempts from one
/// and gives the two sizes in whole MB.
pub proof fn law_failure_counts_attempts(kind: FilesystemKind, attempt: Attempt, estimated: u64)
    requires
        attempt.number < u32::MAX,
    ensures
        exists|tries: Seq<char>, size: Seq<char>, guess: Seq<char>|
            #![trigger text::digits_value(tries), text::digits_value(size), text::digits_value(guess)]
            failure_text(kind, attempt, estimated) == (match kind {
                FilesystemKind::HfsPlus => "HFS+"@,
                FilesystemKind::Apfs => "APFS"@,
            }) + " build failed after "@ + tries + " attempts (image size "@ + size
                + " MB, estimated "@ + guess + " MB)"@ && text::digits_value(tries)
                == attempt.number + 1 && text::digits_value(size) == attempt.image_size / 0x10_0000
                && text::digits_value(guess) == estimated / 0x10_0000,
{
    let tries = text::decimal_nat((attempt.number + 1) as nat);
    let size = text::decimal_nat((attempt.image_size / 0x10_0000) as nat);
    let guess = text::decimal_nat((estimated / 0x10_0000) as nat);
    text::lemma_decimal_nat((attempt.number + 1) as nat);
    text::lemma_decimal_nat((attempt.image_size / 0x10_0000) as nat);
    text::lemma_decimal_nat((estimated / 0x10_0000) as nat);
    assert(text::digits_value(tries) == attempt.number + 1);
}

/// Whether `path` lies directly in `above`.
pub open spec fn is_directly_in(above: Seq<char>, path: Seq<char>) -> bool {
    exists|name: Seq<char>|
        name.len() > 0 && !name.contains('/') && path == #[trigger] (above + seq!['/'] + name)
}

/// The directories above a target are one below the other: the first lies in
/// the root, and each of the others in the one before it.
pub proof fn law_directories_above_are_nested(target: Seq<char>, k: int)
    requires
        0 <= k < dirs_above(target).len(),
    ensures
        k == 0 ==> is_directly_in(Seq::empty(), dirs_above(target)[0]),
        k > 0 ==> is_directly_in(dirs_above(target)[k - 1], dirs_above(target)[k]),
{
    let at = text::last_position(target, '/')->0;
    let parts = tree::components(target.take(at));
    let name = parts[k];
    reveal_strlit("/");
    assert("/"@ =~= seq!['/']);
    crate::apfs::lemma_components_clean(target.take(at), k);
    assert(parts.take(k + 1).drop_last() =~= parts.take(k));
    let above = tree::joined(Seq::empty(), parts.take(k));
    assert(dirs_above(target)[k] == above + seq!['/'] + name);
    if k == 0 {
        assert(parts.take(0) =~= Seq::empty());
    } else {
        assert(dirs_above(target)[k - 1] == above);
    }
}

/// The last of the directories above a target is the one that it lies in, where
/// the target is written with single slashes and starts with one; a target in
/// the root has none.
pub proof fn law_last_directory_above_holds_the_target(dir: Seq<char>, name: Seq<char>)
    requires
        !name.contains('/'),
        dir == tree::joined(Seq::empty(), tree::components(dir)),
    ensures
        dir.len() == 0 ==> dirs_above(dir + seq!['/'] + name).len() == 0,
        dir.len() > 0 ==> dirs_above(dir + seq!['/'] + name).len() > 0 && dirs_above(
            dir + seq!['/'] + name,
        ).last() == dir,
{
    let target = dir + seq!['/'] + name;
    let n = dir.len() as int;
    let parts = tree::components(dir);
    lemma_last_slash(target);
    assert(target[n] == '/');
    let at = text::last_position(target, '/')->0;
    if at > n {
        assert(target[at] == name[at - n - 1]);
        assert(name.contains('/'));
    }
    assert(target.take(n) =~= dir);
    if dir.len() == 0 {
        if parts.len() > 0 {
            assert(tree::joined(Seq::empty(), parts).len() > 0) by {
                reveal_strlit("/");
            }
        }
    } else {
        if parts.len() == 0 {
            assert(tree::joined(Seq::empty(), parts) =~= Seq::<char>::empty());
        }
        assert(parts.take(parts.len() as int) =~= parts);
    }
}

} // verus!

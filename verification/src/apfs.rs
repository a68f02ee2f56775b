//! Where things go on an APFS volume, whose writer addresses directories by
//! object number.
use crate::text;
use crate::tree;
use crate::tree::Dir;
use crate::zip_reader::Entry;
use vstd::hash_map::StringHashMap;
use vstd::prelude::*;

verus! {

broadcast use vstd::string::group_string_axioms;

/// The object number of the root directory.
pub const ROOT_INODE: u64 = 2;

/// The smallest volume, in blocks.
pub const MIN_BLOCKS: u64 = 64;

/// How many blocks of 4096 bytes an image has, but at least the minimum.
pub open spec fn blocks_in(image_size: int) -> int {
    if image_size / 4096 < MIN_BLOCKS {
        MIN_BLOCKS as int
    } else {
        image_size / 4096
    }
}

/// A volume has every whole block of its image, and 64 where that has fewer.
pub proof fn law_volume_fills_its_image(image_size: int)
    requires
        0 <= image_size,
    ensures
        image_size < 64 * 4096 ==> blocks_in(image_size) == 64,
        64 * 4096 <= image_size ==> blocks_in(image_size) * 4096 <= image_size < (blocks_in(
            image_size,
        ) + 1) * 4096,
{
}

/// How many blocks a volume in an image of the given size has.
pub fn volume_blocks(image_size: u64) -> (r: u64)
    ensures
        r == (if image_size / 4096 < MIN_BLOCKS {
            MIN_BLOCKS
        } else {
            image_size / 4096
        }),
        r == blocks_in(image_size as int),
{
    let blocks: u64 = image_size / 4096;
    if blocks < MIN_BLOCKS {
        MIN_BLOCKS
    } else {
        blocks
    }
}

/// The Finder information of a folder with a custom icon: of its 32 bytes only
/// the one at offset 8 is set.
pub open spec fn custom_icon_info() -> Seq<u8> {
    Seq::new(
        32,
        |i: int|
            if i == 8 {
                4u8
            } else {
                0u8
            },
    )
}

/// The flags of the Finder information, at offset 8, have the one of a custom
/// icon and no other; everything else is zero.
pub proof fn law_finder_information_marks_the_icon(i: int)
    requires
        0 <= i < 32,
    ensures
        custom_icon_info().len() == 32,
        custom_icon_info()[8] * 0x100 + custom_icon_info()[9] == 0x0400,
        i != 8 && i != 9 ==> custom_icon_info()[i] == 0,
{
}

/// The Finder information of a folder with a custom icon.
pub fn finder_info() -> (r: [u8; 32])
    ensures
        r@ == custom_icon_info(),
{
    let mut info: [u8; 32] = [0; 32];
    info[8] = 4;
    assert(info@ =~= custom_icon_info());
    info
}

// ---------------------------------------------------------------------------
// Parents and names
// ---------------------------------------------------------------------------

/// The directory that a path lies in, and its name there.
pub open spec fn parent_and_name(path: Seq<char>) -> (Seq<char>, Seq<char>) {
    match text::last_position(path, '/') {
        None => ("/"@, path),
        Some(at) => if at == 0 {
            ("/"@, path.skip(1))
        } else {
            (path.take(at), path.skip(at + 1))
        },
    }
}

/// Splits a path into the directory that it lies in and its name there.
pub fn split_parent_and_name(path: &str) -> (r: (String, String))
    ensures
        (r.0@, r.1@) == parent_and_name(path@),
{
    let chars = text::chars_of(path);
    let end: usize = chars.len();
    match text::rfind(chars.as_slice(), '/') {
        None => ("/".to_owned(), path.to_owned()),
        Some(at) => {
            let name = text::piece_of(chars.as_slice(), at + 1, end);
            assert(name@ =~= path@.skip(at + 1));
            if at == 0 {
                ("/".to_owned(), name)
            } else {
                let parent = text::piece_of(chars.as_slice(), 0, at);
                assert(parent@ =~= path@.take(at as int));
                (parent, name)
            }
        },
    }
}

proof fn lemma_last_position(s: Seq<char>, c: char)
    ensures
        match text::last_position(s, c) {
            Some(at) => 0 <= at < s.len() && s[at] == c && forall|i: int|
                at < i < s.len() ==> s[i] != c,
            None => forall|i: int| 0 <= i < s.len() ==> s[i] != c,
        },
    decreases s.len(),
{
    if s.len() > 0 {
        lemma_last_position(s.drop_last(), c);
        assert forall|i: int| 0 <= i < s.len() - 1 implies s[i] == s.drop_last()[i] by {}
    }
}

/// A name has no slash, and joining it to its directory with one gives the path
/// back; in the root that slash is the directory itself. A path without any
/// slash is a name in the root.
pub proof fn law_parent_and_name_join(path: Seq<char>)
    ensures
        ({
            let (parent, name) = parent_and_name(path);
            &&& parent.len() > 0
            &&& !name.contains('/')
            &&& path.contains('/') ==> path == parent + "/"@ + name || (parent == "/"@ && path
                == "/"@ + name)
            &&& !path.contains('/') ==> parent == "/"@ && path == name
        }),
{
    lemma_last_position(path, '/');
    reveal_strlit("/");
    let (parent, name) = parent_and_name(path);
    match text::last_position(path, '/') {
        None => {
            assert(!path.contains('/'));
        },
        Some(at) => {
            assert(path.contains('/'));
            if at == 0 {
                assert(path =~= "/"@ + name);
            } else {
                assert(path =~= parent + "/"@ + name);
            }
        },
    }
}

// ---------------------------------------------------------------------------
// The table of directories
// ---------------------------------------------------------------------------

/// The object numbers of the directories created so far, by path.
pub struct DirTable {
    oids: StringHashMap<u64>,
}

impl View for DirTable {
    type V = Map<Seq<char>, u64>;

    closed spec fn view(&self) -> Map<Seq<char>, u64> {
        self.oids@
    }
}

/// No directory lies at the path that something is to be put in.
#[derive(Debug)]
pub struct ParentNotFound {
    pub parent: String,
}

/// What it takes to put something at a target: nothing more, or a directory
/// that has to be added first.
pub enum Placement {
    /// The directory is there.
    Ready { parent_oid: u64, name: String },
    /// This directory is not there yet.
    AddDir { parent_oid: u64, name: String, path: String },
}

/// What a [`Placement`] is.
pub enum Place {
    Ready { parent_oid: u64, name: Seq<char> },
    AddDir { parent_oid: u64, name: Seq<char>, path: Seq<char> },
}

impl View for Placement {
    type V = Place;

    open spec fn view(&self) -> Place {
        match self {
            Placement::Ready { parent_oid, name } => Place::Ready {
                parent_oid: *parent_oid,
                name: name@,
            },
            Placement::AddDir { parent_oid, name, path } => Place::AddDir {
                parent_oid: *parent_oid,
                name: name@,
                path: path@,
            },
        }
    }
}

/// The path of the first `k` components.
pub open spec fn level(parts: Seq<Seq<char>>, k: int) -> Seq<char> {
    tree::joined(Seq::empty(), parts.take(k))
}

/// How many of the components, from the first on, have a directory.
pub open spec fn present(table: Map<Seq<char>, u64>, parts: Seq<Seq<char>>, from: int) -> int
    decreases parts.len() - from,
{
    if 0 <= from < parts.len() && table.dom().contains(level(parts, from + 1)) {
        present(table, parts, from + 1)
    } else {
        from
    }
}

/// The object number of the directory of the first `k` components.
pub open spec fn level_oid(table: Map<Seq<char>, u64>, parts: Seq<Seq<char>>, k: int) -> u64 {
    if k == 0 {
        ROOT_INODE
    } else {
        table[level(parts, k)]
    }
}

/// What it takes to put something at `target`.
pub open spec fn place_for(table: Map<Seq<char>, u64>, target: Seq<char>) -> Place {
    let (parent, name) = parent_and_name(target);
    let parts = tree::components(parent);
    let k = present(table, parts, 0);
    if parent == "/"@ || parent.len() == 0 {
        Place::Ready { parent_oid: ROOT_INODE, name }
    } else if table.dom().contains(parent) {
        Place::Ready { parent_oid: table[parent], name }
    } else if k == parts.len() {
        Place::Ready { parent_oid: level_oid(table, parts, k), name }
    } else {
        Place::AddDir {
            parent_oid: level_oid(table, parts, k),
            name: parts[k],
            path: level(parts, k + 1),
        }
    }
}

impl DirTable {
    /// A table with the root directory alone.
    pub fn new() -> (r: Self)
        ensures
            r@ == Map::<Seq<char>, u64>::empty().insert("/"@, ROOT_INODE),
            r@ == Map::<Seq<char>, u64>::empty().insert("/"@, 2),
    {
        let mut oids: StringHashMap<u64> = StringHashMap::new();
        oids.insert("/".to_owned(), ROOT_INODE);
        DirTable { oids }
    }

    /// Enters a directory.
    pub fn insert(&mut self, path: String, oid: u64)
        ensures
            final(self)@ == old(self)@.insert(path@, oid),
    {
        self.oids.insert(path, oid);
    }

    /// The directory that a path lies in, by number, and the name there.
    pub fn resolve_parent(&self, path: &str) -> (r: Result<(u64, String), ParentNotFound>)
        ensures
            ({
                let (parent, name) = parent_and_name(path@);
                match r {
                    Ok((oid, found)) => self@.dom().contains(parent) && oid == self@[parent]
                        && found@ == name,
                    Err(e) => !self@.dom().contains(parent) && e.parent@ == parent,
                }
            }),
    {
        let (parent, name) = split_parent_and_name(path);
        match self.oids.get(parent.as_str()) {
            Some(oid) => Ok((*oid, name)),
            None => Err(ParentNotFound { parent }),
        }
    }

    /// Says what it takes to put something at `target`.
    pub fn place(&self, target: &str) -> (r: Placement)
        ensures
            r@ == place_for(self@, target@),
    {
        let (parent, name) = split_parent_and_name(target);
        if text::same(parent.as_str(), "/") || text::chars_of(parent.as_str()).len() == 0 {
            return Placement::Ready { parent_oid: ROOT_INODE, name };
        }
        if let Some(oid) = self.oids.get(parent.as_str()) {
            return Placement::Ready { parent_oid: *oid, name };
        }
        let parts = tree::path_components(parent.as_str());
        let ghost names = text::views(parts@);
        let mut current: String = String::new();
        let mut current_oid: u64 = ROOT_INODE;
        let mut k: usize = 0;
        assert(names.take(0) =~= Seq::empty());
        assert(current@ =~= Seq::empty());
        while k < parts.len()
            invariant
                k <= parts@.len(),
                names == text::views(parts@),
                names == tree::components(parent@),
                (parent@, name@) == parent_and_name(target@),
                parent@ != "/"@,
                parent@.len() > 0,
                !self@.dom().contains(parent@),
                current@ == level(names, k as int),
                current_oid == level_oid(self@, names, k as int),
                present(self@, names, 0) == present(self@, names, k as int),
            decreases parts@.len() - k,
        {
            let mut next: String = current.clone();
            next.append("/");
            next.append(parts[k].as_str());
            assert(names.take(k + 1).drop_last() =~= names.take(k as int));
            assert(next@ == level(names, k + 1));
            match self.oids.get(next.as_str()) {
                Some(oid) => {
                    current_oid = *oid;
                },
                None => {
                    return Placement::AddDir {
                        parent_oid: current_oid,
                        name: parts[k].clone(),
                        path: next,
                    };
                },
            }
            current = next;
            k += 1;
        }
        Placement::Ready { parent_oid: current_oid, name }
    }
}

proof fn lemma_present(table: Map<Seq<char>, u64>, parts: Seq<Seq<char>>, from: int)
    requires
        0 <= from <= parts.len(),
    ensures
        from <= present(table, parts, from) <= parts.len(),
        forall|k: int|
            from <= k < present(table, parts, from) ==> table.dom().contains(
                #[trigger] level(parts, k + 1),
            ),
        present(table, parts, from) < parts.len() ==> !table.dom().contains(
            level(parts, present(table, parts, from) + 1),
        ),
    decreases parts.len() - from,
{
    if from < parts.len() && table.dom().contains(level(parts, from + 1)) {
        lemma_present(table, parts, from + 1);
    }
}

proof fn lemma_present_at_least(
    table: Map<Seq<char>, u64>,
    parts: Seq<Seq<char>>,
    from: int,
    to: int,
)
    requires
        0 <= from <= to <= parts.len(),
        forall|k: int| from <= k < to ==> table.dom().contains(#[trigger] level(parts, k + 1)),
    ensures
        present(table, parts, from) >= to,
    decreases to - from,
{
    lemma_present(table, parts, from);
    if from < to {
        assert(table.dom().contains(level(parts, from + 1)));
        lemma_present_at_least(table, parts, from + 1, to);
    }
}

/// Adding the directories that are asked for comes to an end: with each of
/// them, at least one more component of the target has a directory.
pub proof fn law_placing_makes_progress(table: Map<Seq<char>, u64>, target: Seq<char>, oid: u64)
    requires
        place_for(table, target) is AddDir,
    ensures
        ({
            let parts = tree::components(parent_and_name(target).0);
            let path = place_for(table, target)->path;
            &&& !table.dom().contains(path)
            &&& present(table, parts, 0) < present(table.insert(path, oid), parts, 0)
            &&& present(table.insert(path, oid), parts, 0) <= parts.len()
        }),
{
    let parts = tree::components(parent_and_name(target).0);
    let k = present(table, parts, 0);
    let path = place_for(table, target)->path;
    let after = table.insert(path, oid);
    lemma_present(table, parts, 0);
    assert forall|i: int| 0 <= i < k + 1 implies after.dom().contains(
        #[trigger] level(parts, i + 1),
    ) by {
        if i < k {
            assert(table.dom().contains(level(parts, i + 1)));
        }
    }
    lemma_present_at_least(after, parts, 0, k + 1);
    lemma_present(after, parts, 0);
}

/// Once every component of the target's directory has a directory of its own,
/// the target is ready.
pub proof fn law_placing_ends(table: Map<Seq<char>, u64>, target: Seq<char>)
    requires
        present(table, tree::components(parent_and_name(target).0), 0) == tree::components(
            parent_and_name(target).0,
        ).len(),
    ensures
        place_for(table, target) is Ready,
{
}

// ---------------------------------------------------------------------------
// Placing a target
// ---------------------------------------------------------------------------

pub proof fn lemma_components_clean(path: Seq<char>, i: int)
    requires
        0 <= i < tree::components(path).len(),
    ensures
        !tree::components(path)[i].contains('/'),
        tree::components(path)[i].len() > 0,
{
    let pieces = text::split_on(path, '/', None);
    let keep = |part: Seq<char>| part.len() > 0;
    text::lemma_pieces_clean(path, '/');
    pieces.lemma_filter_contains_rev(keep, tree::components(path)[i]);
    let k = choose|k: int| 0 <= k < pieces.len() && pieces[k] == tree::components(path)[i];
    assert(!pieces[k].contains('/'));
}

/// A name behind a slash is one more piece.
proof fn lemma_split_name(base: Seq<char>, name: Seq<char>)
    requires
        !name.contains('/'),
    ensures
        text::split_on(base + "/"@ + name, '/', None) == text::split_on(base, '/', None).push(name),
    decreases name.len(),
{
    let path = base + "/"@ + name;
    let pieces = text::split_on(base, '/', None);
    reveal_strlit("/");
    if name.len() == 0 {
        assert(path.drop_last() =~= base);
        assert(path.last() == '/');
        assert(name =~= Seq::empty());
    } else {
        let before = name.drop_last();
        assert forall|i: int| 0 <= i < before.len() implies before[i] != '/' by {
            assert(name[i] == before[i]);
            assert(name.contains(name[i]));
        }
        lemma_split_name(base, before);
        assert(path.drop_last() =~= base + "/"@ + before);
        assert(name.contains(name.last()));
        assert(path.last() == name.last());
        assert(pieces.push(before).drop_last() =~= pieces);
        assert(before.push(name.last()) =~= name);
    }
}

/// A slash and a name add that name to the components of a path; a slash alone
/// adds none, and a name alone is one component.
pub proof fn law_components_follow_slashes(base: Seq<char>, name: Seq<char>)
    requires
        !name.contains('/'),
        name.len() > 0,
    ensures
        tree::components(base + seq!['/'] + name) == tree::components(base).push(name),
        tree::components(base + seq!['/']) == tree::components(base),
        tree::components(name) == seq![name],
        tree::components(Seq::empty()).len() == 0,
{
    let none = Seq::<char>::empty();
    let keep = |part: Seq<char>| part.len() > 0;
    let pieces = text::split_on(base, '/', None);
    reveal_strlit("/");
    assert("/"@ =~= seq!['/']);
    reveal(Seq::filter);
    lemma_split_name(base, name);
    assert(pieces.push(name).drop_last() =~= pieces);
    lemma_split_name(base, none);
    assert(base + "/"@ + none =~= base + seq!['/']);
    assert(pieces.push(none).drop_last() =~= pieces);
    text::lemma_first_piece(name, name, '/');
    lemma_components_of_joined(Seq::empty());
    lemma_components_of_joined(seq![name]);
    let empty_pieces = text::split_on(none, '/', None);
    assert(empty_pieces =~= seq![none]);
    lemma_split_name(none, name);
    assert(none + "/"@ + name =~= "/"@ + name);
    assert(seq![name].drop_last() =~= Seq::empty());
    assert(tree::joined(none, seq![name]) =~= "/"@ + name);
    text::lemma_split_plain(name, '/');
    assert(text::split_on(name, '/', None).drop_last() =~= Seq::empty());
    assert(text::split_on(name, '/', None).drop_last().filter(keep) =~= Seq::empty());
    assert(text::split_on(name, '/', None).filter(keep) =~= seq![name]);
}

/// Clean components are what the path made of them has.
proof fn lemma_components_of_joined(parts: Seq<Seq<char>>)
    requires
        forall|i: int|
            0 <= i < parts.len() ==> (#[trigger] parts[i]).len() > 0 && !parts[i].contains('/'),
    ensures
        tree::components(tree::joined(Seq::empty(), parts)) == parts,
    decreases parts.len(),
{
    let keep = |part: Seq<char>| part.len() > 0;
    reveal(Seq::filter);
    if parts.len() == 0 {
        let pieces = text::split_on(Seq::empty(), '/', None);
        assert(pieces =~= seq![Seq::empty()]);
        assert(pieces.drop_last() =~= Seq::empty());
        assert(pieces.drop_last().filter(keep) =~= Seq::empty());
        assert(tree::components(Seq::empty()) =~= Seq::empty());
        assert(parts =~= Seq::empty());
    } else {
        let before = parts.drop_last();
        let base = tree::joined(Seq::empty(), before);
        let name = parts.last();
        assert forall|i: int| 0 <= i < before.len() implies (#[trigger] before[i]).len() > 0
            && !before[i].contains('/') by {
            assert(before[i] == parts[i]);
        }
        lemma_components_of_joined(before);
        assert(parts[parts.len() - 1] == name);
        lemma_split_name(base, name);
        let pieces = text::split_on(base, '/', None);
        assert(pieces.push(name).drop_last() =~= pieces);
        assert(pieces.push(name).filter(keep) =~= pieces.filter(keep).push(name));
        assert(before.push(name) =~= parts);
    }
}

/// The path of the first `k` components has those components.
proof fn lemma_components_of_level(path: Seq<char>, k: int)
    requires
        0 <= k <= tree::components(path).len(),
    ensures
        tree::components(level(tree::components(path), k)) == tree::components(path).take(k),
{
    let parts = tree::components(path);
    assert forall|i: int| 0 <= i < parts.take(k).len() implies (#[trigger] parts.take(k)[i]).len()
        > 0 && !parts.take(k)[i].contains('/') by {
        lemma_components_clean(path, i);
    }
    lemma_components_of_joined(parts.take(k));
}

/// Of the paths of the components from `from` on, those without a directory,
/// shallowest first.
pub open spec fn missing(
    table: Map<Seq<char>, u64>,
    parts: Seq<Seq<char>>,
    from: int,
) -> Seq<Seq<char>>
    decreases parts.len() - from,
{
    if from < 0 || from >= parts.len() {
        Seq::empty()
    } else if table.dom().contains(level(parts, from + 1)) {
        missing(table, parts, from + 1)
    } else {
        seq![level(parts, from + 1)] + missing(table, parts, from + 1)
    }
}

/// The directories to add before something can be put at `target`, shallowest
/// first.
pub open spec fn to_add(table: Map<Seq<char>, u64>, target: Seq<char>) -> Seq<Seq<char>> {
    let parent = parent_and_name(target).0;
    if parent == "/"@ || parent.len() == 0 || table.dom().contains(parent) {
        Seq::empty()
    } else {
        missing(table, tree::components(parent), 0)
    }
}

/// A run of placing something at `target`: as long as a directory is asked for,
/// it is added, gets the next number of `oids`, and is entered in the table.
/// Gives the table after the run, and what was asked for.
pub open spec fn placing(table: Map<Seq<char>, u64>, target: Seq<char>, oids: Seq<u64>) -> (
    Map<Seq<char>, u64>,
    Seq<Place>,
)
    decreases oids.len(),
{
    if place_for(table, target) is Ready || oids.len() == 0 {
        (table, Seq::empty())
    } else {
        let asked = place_for(table, target);
        let (after, others) = placing(table.insert(asked->path, oids[0]), target, oids.skip(1));
        (after, seq![asked] + others)
    }
}

proof fn lemma_missing_skips(
    table: Map<Seq<char>, u64>,
    parts: Seq<Seq<char>>,
    from: int,
    to: int,
)
    requires
        0 <= from <= to <= parts.len(),
        forall|k: int| from <= k < to ==> table.dom().contains(#[trigger] level(parts, k + 1)),
    ensures
        missing(table, parts, from) == missing(table, parts, to),
    decreases to - from,
{
    if from < to {
        assert(table.dom().contains(level(parts, from + 1)));
        lemma_missing_skips(table, parts, from + 1, to);
    }
}

/// A new directory changes nothing for the components behind it.
proof fn lemma_missing_after(
    table: Map<Seq<char>, u64>,
    path: Seq<char>,
    at: int,
    oid: u64,
    from: int,
)
    requires
        0 < at <= from <= tree::components(path).len(),
    ensures
        ({
            let parts = tree::components(path);
            missing(table.insert(level(parts, at), oid), parts, from) == missing(table, parts, from)
        }),
    decreases tree::components(path).len() - from,
{
    let parts = tree::components(path);
    if from < parts.len() {
        lemma_components_of_level(path, at);
        lemma_components_of_level(path, from + 1);
        assert(parts.take(at).len() != parts.take(from + 1).len());
        lemma_missing_after(table, path, at, oid, from + 1);
    }
}

/// What is asked for is the first directory to add; once it is there, the
/// others are left.
proof fn lemma_one_step(table: Map<Seq<char>, u64>, target: Seq<char>, oid: u64)
    ensures
        place_for(table, target) is Ready <==> to_add(table, target).len() == 0,
        place_for(table, target) is AddDir ==> {
            let path = place_for(table, target)->path;
            &&& to_add(table, target)[0] == path
            &&& to_add(table.insert(path, oid), target) == to_add(table, target).skip(1)
        },
{
    let parent = parent_and_name(target).0;
    let parts = tree::components(parent);
    let k = present(table, parts, 0);
    if parent != "/"@ && parent.len() > 0 && !table.dom().contains(parent) {
        lemma_present(table, parts, 0);
        lemma_missing_skips(table, parts, 0, k);
        if k < parts.len() {
            let path = level(parts, k + 1);
            let after = table.insert(path, oid);
            assert(missing(table, parts, k) == seq![path] + missing(table, parts, k + 1));
            assert(to_add(table, target).skip(1) =~= missing(table, parts, k + 1));
            assert forall|i: int| 0 <= i < k + 1 implies after.dom().contains(
                #[trigger] level(parts, i + 1),
            ) by {
                if i < k {
                    assert(table.dom().contains(level(parts, i + 1)));
                }
            }
            lemma_missing_skips(after, parts, 0, k + 1);
            lemma_missing_after(table, parent, k + 1, oid, k + 1);
            lemma_components_of_level(parent, k + 1);
            if path == parent {
                assert(parts.take(k + 1).len() == parts.len());
            }
        }
    }
}

/// Whether `asked` is the request for the directory of the first `d` components
/// of a path: in the directory of the components before, under the last of
/// them.
pub open spec fn asks_for(
    asked: Place,
    table: Map<Seq<char>, u64>,
    parts: Seq<Seq<char>>,
    d: int,
) -> bool {
    &&& 0 < d <= parts.len()
    &&& asked == Place::AddDir {
        parent_oid: if d == 1 {
            2
        } else {
            table[level(parts, d - 1)]
        },
        name: parts[d - 1],
        path: level(parts, d),
    }
}

/// A run asks for each directory to add once, shallowest first and each in the
/// directory above it, and for nothing else. Afterwards the target is ready,
/// the table has gained exactly these directories, with their numbers, and
/// directories that were there keep theirs.
pub proof fn law_placing_adds_what_is_missing(
    table: Map<Seq<char>, u64>,
    target: Seq<char>,
    oids: Seq<u64>,
)
    requires
        oids.len() == to_add(table, target).len(),
    ensures
        ({
            let (after, asked) = placing(table, target, oids);
            let parts = tree::components(parent_and_name(target).0);
            let added = to_add(table, target);
            &&& asked.len() == added.len()
            &&& forall|i: int|
                0 <= i < asked.len() ==> asks_for(
                    #[trigger] asked[i],
                    after,
                    parts,
                    tree::components(added[i]).len() as int,
                ) && asked[i]->path == added[i] && after.dom().contains(added[i])
                    && after[added[i]] == oids[i]
            &&& forall|path: Seq<char>| #[trigger]
                after.dom().contains(path) <==> table.dom().contains(path) || added.contains(path)
            &&& forall|path: Seq<char>| #[trigger]
                table.dom().contains(path) ==> after[path] == table[path]
            &&& place_for(after, target) is Ready
        }),
    decreases oids.len(),
{
    let parent = parent_and_name(target).0;
    let parts = tree::components(parent);
    let added = to_add(table, target);
    let (after, asked) = placing(table, target, oids);
    if oids.len() == 0 {
        lemma_one_step(table, target, 0);
    } else {
        lemma_one_step(table, target, oids[0]);
        let first = place_for(table, target);
        let path = first->path;
        let next = table.insert(path, oids[0]);
        let others = oids.skip(1);
        let (_, asked_others) = placing(next, target, others);
        let added_others = added.skip(1);
        law_placing_adds_what_is_missing(next, target, others);
        assert(asked == seq![first] + asked_others);
        let k = present(table, parts, 0);
        lemma_present(table, parts, 0);
        assert(!table.dom().contains(path));
        lemma_components_of_level(parent, k + 1);
        assert(tree::components(added[0]).len() == k + 1);
        assert(level_oid(table, parts, k) == level_oid(after, parts, k)) by {
            if k > 0 {
                assert(table.dom().contains(level(parts, k - 1 + 1)));
                assert(next.dom().contains(level(parts, k)));
            }
        }
        assert(asks_for(first, after, parts, k + 1));
        assert(next.dom().contains(path));
        assert forall|i: int| 0 <= i < asked.len() implies asks_for(
            #[trigger] asked[i],
            after,
            parts,
            tree::components(added[i]).len() as int,
        ) && asked[i]->path == added[i] && after.dom().contains(added[i]) && after[added[i]]
            == oids[i] by {
            if i > 0 {
                assert(asked[i] == asked_others[i - 1]);
                assert(added[i] == added_others[i - 1]);
                assert(oids[i] == others[i - 1]);
            }
        }
        assert forall|p: Seq<char>| #[trigger] after.dom().contains(p) <==> table.dom().contains(p)
            || added.contains(p) by {
            assert(added =~= seq![path] + added_others);
            if added.contains(p) {
                let i = choose|i: int| 0 <= i < added.len() && added[i] == p;
                if i > 0 {
                    assert(added_others[i - 1] == p);
                    assert(added_others.contains(p));
                }
            }
            if added_others.contains(p) {
                let i = choose|i: int| 0 <= i < added_others.len() && added_others[i] == p;
                assert(added[i + 1] == p);
            }
            assert(added[0] == path);
            assert(next.dom().contains(p) <==> table.dom().contains(p) || p == path);
        }
        assert forall|p: Seq<char>| #[trigger] table.dom().contains(p) implies after[p]
            == table[p] by {
            assert(next.dom().contains(p));
        }
    }
}

/// After a run the target goes into the directory above it, under its name, and
/// a second run asks for nothing and gives the same place.
pub proof fn law_placing_again_adds_nothing(
    table: Map<Seq<char>, u64>,
    target: Seq<char>,
    oids: Seq<u64>,
    more: Seq<u64>,
)
    requires
        oids.len() == to_add(table, target).len(),
    ensures
        ({
            let after = placing(table, target, oids).0;
            let (parent, name) = parent_and_name(target);
            let parts = tree::components(parent);
            let parent_oid = if parent == "/"@ || parent.len() == 0 {
                2
            } else if table.dom().contains(parent) {
                table[parent]
            } else if parts.len() == 0 {
                2
            } else {
                after[level(parts, parts.len() as int)]
            };
            &&& place_for(after, target) == Place::Ready { parent_oid, name }
            &&& placing(after, target, more) == (after, Seq::<Place>::empty())
        }),
{
    let (after, asked) = placing(table, target, oids);
    let parent = parent_and_name(target).0;
    let parts = tree::components(parent);
    let added = to_add(table, target);
    law_placing_adds_what_is_missing(table, target, oids);
    if parent != "/"@ && parent.len() > 0 {
        if table.dom().contains(parent) {
            assert(after[parent] == table[parent]);
        } else if after.dom().contains(parent) {
            let i = choose|i: int| 0 <= i < added.len() && added[i] == parent;
            assert(asks_for(asked[i], after, parts, tree::components(added[i]).len() as int));
            assert(parts.len() > 0);
            assert(parent == level(parts, parts.len() as int));
        } else {
            lemma_present(after, parts, 0);
        }
    }
}

/// Whether a table has, with every path, the paths of its first components.
pub open spec fn is_closed(table: Map<Seq<char>, u64>) -> bool {
    forall|path: Seq<char>, k: int|
        #![trigger table.dom().contains(path), level(tree::components(path), k)]
        table.dom().contains(path) && 0 < k <= tree::components(path).len()
            ==> table.dom().contains(level(tree::components(path), k))
}

/// The root has no components, nor has the empty path.
proof fn lemma_no_components()
    ensures
        tree::components("/"@).len() == 0,
        tree::components(Seq::empty()).len() == 0,
{
    let none = Seq::<char>::empty();
    let keep = |part: Seq<char>| part.len() > 0;
    reveal_strlit("/");
    reveal(Seq::filter);
    lemma_split_name(none, none);
    assert(none + "/"@ + none =~= "/"@);
    let pieces = text::split_on("/"@, '/', None);
    assert(pieces =~= seq![none, none]);
    assert(pieces.drop_last() =~= seq![none]);
    assert(pieces.drop_last().drop_last() =~= Seq::empty());
    assert(pieces.drop_last().drop_last().filter(keep) =~= Seq::empty());
    assert(pieces.drop_last().filter(keep) =~= Seq::empty());
    assert(pieces.filter(keep) =~= Seq::empty());
    lemma_components_of_joined(Seq::empty());
}

/// The table with the root alone is closed.
pub proof fn law_new_table_is_closed()
    ensures
        is_closed(Map::<Seq<char>, u64>::empty().insert("/"@, ROOT_INODE)),
{
    lemma_no_components();
}

/// A directory that lies in one of the table, or in the root, can be entered: a
/// closed table stays closed.
pub proof fn law_entering_keeps_closed(table: Map<Seq<char>, u64>, path: Seq<char>, oid: u64)
    requires
        is_closed(table),
        ({
            let parts = tree::components(path);
            let n = parts.len() as int;
            path == level(parts, n) && (n > 1 ==> table.dom().contains(level(parts, n - 1)))
        }),
    ensures
        is_closed(table.insert(path, oid)),
{
    let parts = tree::components(path);
    let n = parts.len() as int;
    let after = table.insert(path, oid);
    assert forall|p: Seq<char>, k: int|
        #![trigger after.dom().contains(p), level(tree::components(p), k)]
        after.dom().contains(p) && 0 < k <= tree::components(p).len() implies after.dom().contains(
        level(tree::components(p), k),
    ) by {
        if table.dom().contains(p) {
            assert(table.dom().contains(level(tree::components(p), k)));
        } else if k < n {
            let above = level(parts, n - 1);
            lemma_components_of_level(path, n - 1);
            assert(parts.take(n - 1).take(k) =~= parts.take(k));
            assert(level(tree::components(above), k) == level(parts, k));
        }
    }
}

/// The missing paths are those of the components that have no directory,
/// shallowest first.
proof fn lemma_missing_exact(table: Map<Seq<char>, u64>, path: Seq<char>, from: int)
    requires
        0 <= from <= tree::components(path).len(),
    ensures
        ({
            let parts = tree::components(path);
            let list = missing(table, parts, from);
            &&& forall|k: int|
                from < k <= parts.len() ==> (list.contains(#[trigger] level(parts, k))
                    <==> !table.dom().contains(level(parts, k)))
            &&& forall|i: int|
                0 <= i < list.len() ==> from < tree::components(#[trigger] list[i]).len()
                    <= parts.len()
            &&& forall|i: int, j: int|
                #![trigger list[i], list[j]]
                0 <= i < j < list.len() ==> tree::components(list[i]).len() < tree::components(
                    list[j],
                ).len()
        }),
    decreases tree::components(path).len() - from,
{
    let parts = tree::components(path);
    let list = missing(table, parts, from);
    if from < parts.len() {
        let rest = missing(table, parts, from + 1);
        let first = level(parts, from + 1);
        lemma_missing_exact(table, path, from + 1);
        lemma_components_of_level(path, from + 1);
        if table.dom().contains(first) {
            if rest.contains(first) {
                let i = choose|i: int| 0 <= i < rest.len() && rest[i] == first;
                assert(tree::components(rest[i]).len() > from + 1);
            }
        } else {
            assert(list == seq![first] + rest);
            assert(list[0] == first);
            assert forall|k: int| from < k <= parts.len() implies (list.contains(
                #[trigger] level(parts, k),
            ) <==> !table.dom().contains(level(parts, k))) by {
                if k > from + 1 {
                    lemma_components_of_level(path, k);
                    if rest.contains(level(parts, k)) {
                        let i = choose|i: int| 0 <= i < rest.len() && rest[i] == level(parts, k);
                        assert(list[i + 1] == level(parts, k));
                    }
                    if list.contains(level(parts, k)) {
                        let i = choose|i: int| 0 <= i < list.len() && list[i] == level(parts, k);
                        assert(i > 0);
                        assert(rest[i - 1] == level(parts, k));
                    }
                }
            }
            assert forall|i: int| 0 <= i < list.len() implies from < tree::components(
                #[trigger] list[i],
            ).len() <= parts.len() by {
                if i > 0 {
                    assert(list[i] == rest[i - 1]);
                }
            }
            assert forall|i: int, j: int|
                #![trigger list[i], list[j]]
                0 <= i < j < list.len() implies tree::components(list[i]).len()
                < tree::components(list[j]).len() by {
                assert(list[j] == rest[j - 1]);
                if i > 0 {
                    assert(list[i] == rest[i - 1]);
                }
            }
        }
    }
}

/// In a closed table, a run adds one directory for each directory above the
/// target that is not there, shallowest first. Afterwards all of them are
/// there, and the table is still closed.
pub proof fn law_placing_covers_the_ancestors(
    table: Map<Seq<char>, u64>,
    target: Seq<char>,
    oids: Seq<u64>,
)
    requires
        is_closed(table),
        oids.len() == to_add(table, target).len(),
    ensures
        ({
            let after = placing(table, target, oids).0;
            let parts = tree::components(parent_and_name(target).0);
            let added = to_add(table, target);
            &&& forall|k: int|
                0 < k <= parts.len() ==> after.dom().contains(#[trigger] level(parts, k))
            &&& forall|k: int|
                0 < k <= parts.len() ==> (added.contains(#[trigger] level(parts, k))
                    <==> !table.dom().contains(level(parts, k)))
            &&& forall|i: int, j: int|
                #![trigger added[i], added[j]]
                0 <= i < j < added.len() ==> tree::components(added[i]).len() < tree::components(
                    added[j],
                ).len()
            &&& is_closed(after)
        }),
{
    let (after, asked) = placing(table, target, oids);
    let parent = parent_and_name(target).0;
    let parts = tree::components(parent);
    let added = to_add(table, target);
    law_placing_adds_what_is_missing(table, target, oids);
    lemma_missing_exact(table, parent, 0);
    lemma_no_components();
    if parent.len() == 0 {
        assert(parent =~= Seq::empty());
    }
    assert forall|k: int| 0 < k <= parts.len() implies after.dom().contains(
        #[trigger] level(parts, k),
    ) && (added.contains(level(parts, k)) <==> !table.dom().contains(level(parts, k))) by {
        if table.dom().contains(parent) {
            assert(table.dom().contains(level(parts, k)));
        }
    }
    assert forall|p: Seq<char>, k: int|
        #![trigger after.dom().contains(p), level(tree::components(p), k)]
        after.dom().contains(p) && 0 < k <= tree::components(p).len() implies after.dom().contains(
        level(tree::components(p), k),
    ) by {
        if table.dom().contains(p) {
            assert(table.dom().contains(level(tree::components(p), k)));
        } else {
            let i = choose|i: int| 0 <= i < added.len() && added[i] == p;
            let d = tree::components(added[i]).len() as int;
            assert(asks_for(asked[i], after, parts, d));
            lemma_components_of_level(parent, d);
            assert(parts.take(d).take(k) =~= parts.take(k));
            assert(level(tree::components(p), k) == level(parts, k));
        }
    }
}

// ---------------------------------------------------------------------------
// Directories of the bundle
// ---------------------------------------------------------------------------

/// Whether a path is written with single slashes between its components, and
/// none at either end.
pub open spec fn is_plain(path: Seq<char>) -> bool {
    path.len() > 0 && "/"@ + path == tree::joined(Seq::empty(), tree::components(path))
}

proof fn lemma_joined_base(base: Seq<char>, parts: Seq<Seq<char>>)
    ensures
        tree::joined(base, parts) == base + tree::joined(Seq::empty(), parts),
    decreases parts.len(),
{
    if parts.len() == 0 {
        assert(base + Seq::<char>::empty() =~= base);
    } else {
        lemma_joined_base(base, parts.drop_last());
        assert(tree::joined(base, parts) =~= base + tree::joined(Seq::empty(), parts));
    }
}

/// What lies directly in a directory has that directory for a parent.
proof fn lemma_parent_of_joined(base: Seq<char>, name: Seq<char>)
    requires
        base.len() > 0,
        !name.contains('/'),
    ensures
        parent_and_name(base + "/"@ + name) == (base, name),
{
    let path = base + "/"@ + name;
    reveal_strlit("/");
    lemma_last_position(path, '/');
    assert(path[base.len() as int] == '/');
    let at = text::last_position(path, '/')->0;
    if at > base.len() {
        assert(path[at] == name[at - base.len() - 1]);
        assert(name.contains('/'));
    }
    assert(at == base.len());
    assert(path.take(at) =~= base);
    assert(path.skip(at + 1) =~= name);
}

/// An entry with a plain path lies below the bundle under its components.
proof fn lemma_plain_path(root: Seq<char>, entry: Entry)
    requires
        is_plain(tree::slashed(entry.relative_path())),
    ensures
        ({
            let parts = tree::components(tree::slashed(entry.relative_path()));
            &&& parts.len() > 0
            &&& tree::entry_path(root, entry) == tree::joined(tree::root_path(root), parts)
        }),
{
    let base = tree::root_path(root);
    let rel = tree::slashed(entry.relative_path());
    let parts = tree::components(rel);
    lemma_joined_base(base, parts);
    reveal_strlit("/");
    assert(tree::entry_path(root, entry) =~= base + ("/"@ + rel));
    if parts.len() == 0 {
        assert(tree::joined(Seq::empty(), parts) =~= Seq::empty());
        assert(("/"@ + rel).len() > 0);
    }
}

/// What lies below the bundle under the first `k` components of a path has for
/// a parent what lies there under one component less.
proof fn lemma_parent_in_bundle(root: Seq<char>, path: Seq<char>, k: int)
    requires
        0 < k <= tree::components(path).len(),
    ensures
        ({
            let parts = tree::components(path);
            let above = tree::joined(tree::root_path(root), parts.take(k - 1));
            &&& tree::joined(tree::root_path(root), parts.take(k)) == above + "/"@ + parts[k - 1]
            &&& parent_and_name(tree::joined(tree::root_path(root), parts.take(k))) == (
                above,
                parts[k - 1],
            )
        }),
{
    let base = tree::root_path(root);
    let parts = tree::components(path);
    reveal_strlit("/");
    assert(parts.take(k).drop_last() =~= parts.take(k - 1));
    lemma_joined_base(base, parts.take(k - 1));
    lemma_components_clean(path, k - 1);
    lemma_parent_of_joined(tree::joined(base, parts.take(k - 1)), parts[k - 1]);
}

/// Below the bundle, under the first `k` components of an entry's path but not
/// under all of them, a directory is created, unless the first entry that lies
/// there is no directory.
proof fn lemma_level_is_created(
    root: Seq<char>,
    entries: Seq<Entry>,
    dirs: Seq<Dir>,
    i: int,
    k: int,
)
    requires
        tree::sorted_dirs(root, entries, dirs),
        0 <= i < entries.len(),
        0 <= k < tree::components(tree::slashed(entries[i].relative_path())).len(),
        ({
            let parts = tree::components(tree::slashed(entries[i].relative_path()));
            forall|j: int|
                tree::first_at(root, entries, j) && tree::entry_path(root, #[trigger] entries[j])
                    == tree::joined(tree::root_path(root), parts.take(k))
                    ==> entries[j] is Directory
        }),
    ensures
        ({
            let parts = tree::components(tree::slashed(entries[i].relative_path()));
            tree::has_dir(dirs, tree::joined(tree::root_path(root), parts.take(k)))
        }),
{
    let base = tree::root_path(root);
    let parts = tree::components(tree::slashed(entries[i].relative_path()));
    if k == 0 {
        assert(parts.take(0) =~= Seq::empty());
        tree::law_bundle_comes_first(root, entries, dirs);
        assert(dirs[0].path == tree::joined(base, parts.take(0)));
    } else {
        let all = tree::parents(root, entries[i]);
        assert(all[k - 1] == tree::joined(base, parts.take(k)));
        assert(all.contains(tree::joined(base, parts.take(k))));
        tree::law_parents_are_created(
            root,
            entries,
            dirs,
            i,
            tree::joined(base, parts.take(k)),
        );
    }
}

/// The directory of every entry with a plain path is created, unless the first
/// entry that lies there is no directory: whatever is put on the volume finds
/// its parent.
pub proof fn law_entry_has_its_directory(
    root: Seq<char>,
    entries: Seq<Entry>,
    dirs: Seq<Dir>,
    i: int,
)
    requires
        tree::sorted_dirs(root, entries, dirs),
        0 <= i < entries.len(),
        is_plain(tree::slashed(entries[i].relative_path())),
        forall|j: int|
            tree::first_at(root, entries, j) && tree::entry_path(root, #[trigger] entries[j])
                == parent_and_name(tree::entry_path(root, entries[i])).0 ==> entries[j] is Directory,
    ensures
        tree::has_dir(dirs, parent_and_name(tree::entry_path(root, entries[i])).0),
{
    let rel = tree::slashed(entries[i].relative_path());
    let parts = tree::components(rel);
    lemma_plain_path(root, entries[i]);
    assert(parts.take(parts.len() as int) =~= parts);
    lemma_parent_in_bundle(root, rel, parts.len() as int);
    lemma_level_is_created(root, entries, dirs, i, parts.len() - 1);
}

/// Every directory is created after the one that it lies in: the bundle, which
/// comes first, lies in the root, and each of the others finds its parent
/// earlier in the list. An entry at its path has to be plain, and the first
/// entry at its parent's path a directory.
pub proof fn law_directory_finds_its_parent(
    root: Seq<char>,
    entries: Seq<Entry>,
    dirs: Seq<Dir>,
    i: int,
)
    requires
        tree::sorted_dirs(root, entries, dirs),
        0 <= i < dirs.len(),
        !root.contains('/'),
        forall|j: int|
            i > 0 && tree::first_at(root, entries, j) && tree::entry_path(
                root,
                #[trigger] entries[j],
            ) == dirs[i].path ==> is_plain(tree::slashed(entries[j].relative_path())),
        forall|j: int|
            tree::first_at(root, entries, j) && tree::entry_path(root, #[trigger] entries[j])
                == parent_and_name(dirs[i].path).0 ==> entries[j] is Directory,
    ensures
        ({
            let parent = parent_and_name(dirs[i].path).0;
            if i == 0 {
                parent == "/"@
            } else {
                exists|j: int| 0 <= j < i && (#[trigger] dirs[j]).path == parent
            }
        }),
{
    let base = tree::root_path(root);
    let path = dirs[i].path;
    let parent = parent_and_name(path).0;
    tree::law_bundle_comes_first(root, entries, dirs);
    reveal_strlit("/");
    if i == 0 {
        lemma_last_position(path, '/');
        assert(path[0] == '/');
        let at = text::last_position(path, '/')->0;
        if at > 0 {
            assert(path[at] == root[at - 1]);
        }
    } else {
        tree::law_dirs_are_in_order(root, entries, dirs);
        assert(dirs[0].path != dirs[i].path);
        assert(tree::has_dir(dirs, path));
        let e = tree::lemma_dir_origin(root, entries, dirs, path);
        let rel = tree::slashed(entries[e].relative_path());
        let parts = tree::components(rel);
        let all = tree::parents(root, entries[e]);
        let k = if all.contains(path) {
            let k = choose|k: int| 0 <= k < all.len() && all[k] == path;
            k + 1
        } else {
            lemma_plain_path(root, entries[e]);
            assert(parts.take(parts.len() as int) =~= parts);
            parts.len() as int
        };
        assert(path == tree::joined(base, parts.take(k)));
        lemma_parent_in_bundle(root, rel, k);
        lemma_level_is_created(root, entries, dirs, e, k - 1);
        let j = choose|j: int| 0 <= j < dirs.len() && (#[trigger] dirs[j]).path == parent;
        assert(path == parent + "/"@ + parts[k - 1]);
        assert(tree::below(dirs[j].path, dirs[i].path));
        tree::law_contents_come_after(root, entries, dirs, j, i);
    }
}

} // verus!

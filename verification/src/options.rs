//! What the command line asks for: formats, positions and decorations.
//!
//! Whether a host file exists is not for this module to find out: the caller
//! says so beside each path.
use crate::decorations::{Decorations, DmgDecorations, DmgDecorationsBuilder};
use crate::gpt::FilesystemKind;
use crate::text;
use std::path::PathBuf;
use vstd::prelude::*;

verus! {

broadcast use vstd::string::group_string_axioms;

/// How the data blocks of an image are compressed.
#[derive(Clone, Copy, Debug, PartialEq, Eq, Structural)]
pub enum CompressionMethod {
    Raw,
    Zlib,
    Bzip2,
    Lzfse,
    Xz,
}

/// Why an option was refused, with the text that was refused.
#[derive(Debug)]
pub enum OptionError {
    /// The format is none of the known ones.
    UnknownFormat(String),
    /// The filesystem is none of the known ones.
    UnknownFilesystem(String),
    /// The value does not have the form `x,y`.
    NotAPair(String),
    /// The x value is no number.
    InvalidX(String),
    /// The y value is no number.
    InvalidY(String),
    /// The background image does not exist.
    BackgroundNotFound,
    /// The path of the background image does not end in a file name.
    BackgroundWithoutName,
    /// The volume icon does not exist.
    VolumeIconNotFound,
    /// The text size is out of range.
    TextSize(u32),
    /// The value does not have the form `name,x,y`.
    IconFormat(String),
    /// The EULA file does not exist.
    EulaNotFound,
    /// The x value of an extra file is no number.
    InvalidFileX(String),
    /// The y value of an extra file is no number.
    InvalidFileY(String),
    /// The value has neither two nor four parts.
    AddFileFormat(String),
    /// The extra file does not exist.
    ExtraFileNotFound(String),
}

/// What an [`OptionError`] says.
pub enum Problem {
    UnknownFormat(Seq<char>),
    UnknownFilesystem(Seq<char>),
    NotAPair(Seq<char>),
    InvalidX(Seq<char>),
    InvalidY(Seq<char>),
    BackgroundNotFound,
    BackgroundWithoutName,
    VolumeIconNotFound,
    TextSize(u32),
    IconFormat(Seq<char>),
    EulaNotFound,
    InvalidFileX(Seq<char>),
    InvalidFileY(Seq<char>),
    AddFileFormat(Seq<char>),
    ExtraFileNotFound(Seq<char>),
}

impl View for OptionError {
    type V = Problem;

    open spec fn view(&self) -> Problem {
        match self {
            OptionError::UnknownFormat(s) => Problem::UnknownFormat(s@),
            OptionError::UnknownFilesystem(s) => Problem::UnknownFilesystem(s@),
            OptionError::NotAPair(s) => Problem::NotAPair(s@),
            OptionError::InvalidX(s) => Problem::InvalidX(s@),
            OptionError::InvalidY(s) => Problem::InvalidY(s@),
            OptionError::BackgroundNotFound => Problem::BackgroundNotFound,
            OptionError::BackgroundWithoutName => Problem::BackgroundWithoutName,
            OptionError::VolumeIconNotFound => Problem::VolumeIconNotFound,
            OptionError::TextSize(size) => Problem::TextSize(*size),
            OptionError::IconFormat(s) => Problem::IconFormat(s@),
            OptionError::EulaNotFound => Problem::EulaNotFound,
            OptionError::InvalidFileX(s) => Problem::InvalidFileX(s@),
            OptionError::InvalidFileY(s) => Problem::InvalidFileY(s@),
            OptionError::AddFileFormat(s) => Problem::AddFileFormat(s@),
            OptionError::ExtraFileNotFound(s) => Problem::ExtraFileNotFound(s@),
        }
    }
}

/// A result with its error's view.
pub open spec fn outcome<T>(r: Result<T, OptionError>) -> Result<T, Problem> {
    match r {
        Ok(value) => Ok(value),
        Err(e) => Err(e@),
    }
}

// ---------------------------------------------------------------------------
// Formats and filesystems
// ---------------------------------------------------------------------------

/// The method that goes by a name in lower case: those of disk image formats
/// and those of algorithms.
pub open spec fn method_named(name: Seq<char>) -> Option<CompressionMethod> {
    if name == "raw"@ || name == "none"@ {
        Some(CompressionMethod::Raw)
    } else if name == "udzo"@ || name == "zlib"@ || name == "deflate"@ {
        Some(CompressionMethod::Zlib)
    } else if name == "udbz"@ || name == "bzip2"@ || name == "bz2"@ {
        Some(CompressionMethod::Bzip2)
    } else if name == "ulfo"@ || name == "lzfse"@ {
        Some(CompressionMethod::Lzfse)
    } else if name == "ulmo"@ || name == "xz"@ || name == "lzma"@ || name == "lzma2"@ {
        Some(CompressionMethod::Xz)
    } else {
        None
    }
}

/// Parse compression method from string.
///
/// Accepts both create-dmg format names and algorithm names, in any case:
/// - `UDZO` / `zlib` / `deflate` → Zlib (default, best compatibility)
/// - `UDBZ` / `bzip2` / `bz2`   → Bzip2 (smaller)
/// - `ULFO` / `lzfse`            → LZFSE (smaller and faster, macOS 10.11+)
/// - `ULMO` / `xz` / `lzma` / `lzma2` → LZMA
/// - `raw` / `none`              → No compression
pub fn parse_compression(s: &str) -> (r: Result<CompressionMethod, OptionError>)
    ensures
        match method_named(text::lowered(s@)) {
            Some(method) => r is Ok && r->Ok_0 == method,
            None => r is Err && r->Err_0@ == Problem::UnknownFormat(s@),
        },
{
    let lower = text::to_lower(s);
    let name = lower.as_str();
    if text::same(name, "raw") || text::same(name, "none") {
        Ok(CompressionMethod::Raw)
    } else if text::same(name, "udzo") || text::same(name, "zlib") || text::same(name, "deflate") {
        Ok(CompressionMethod::Zlib)
    } else if text::same(name, "udbz") || text::same(name, "bzip2") || text::same(name, "bz2") {
        Ok(CompressionMethod::Bzip2)
    } else if text::same(name, "ulfo") || text::same(name, "lzfse") {
        Ok(CompressionMethod::Lzfse)
    } else if text::same(name, "ulmo") || text::same(name, "xz") || text::same(name, "lzma")
        || text::same(name, "lzma2") {
        Ok(CompressionMethod::Xz)
    } else {
        Err(OptionError::UnknownFormat(s.to_owned()))
    }
}

/// The filesystem that goes by a name in lower case.
pub open spec fn filesystem_named(name: Seq<char>) -> Option<FilesystemKind> {
    if name == "hfs+"@ || name == "hfs"@ {
        Some(FilesystemKind::HfsPlus)
    } else if name == "apfs"@ {
        Some(FilesystemKind::Apfs)
    } else {
        None
    }
}

/// Parse the filesystem of an image: `HFS+`, `HFS` or `APFS`, in any case.
pub fn parse_filesystem(s: &str) -> (r: Result<FilesystemKind, OptionError>)
    ensures
        match filesystem_named(text::lowered(s@)) {
            Some(kind) => r is Ok && r->Ok_0 == kind,
            None => r is Err && r->Err_0@ == Problem::UnknownFilesystem(text::lowered(s@)),
        },
{
    let lower = text::to_lower(s);
    if text::same(lower.as_str(), "hfs+") || text::same(lower.as_str(), "hfs") {
        Ok(FilesystemKind::HfsPlus)
    } else if text::same(lower.as_str(), "apfs") {
        Ok(FilesystemKind::Apfs)
    } else {
        Err(OptionError::UnknownFilesystem(lower))
    }
}

/// The case of a name does not matter: a name and its lower-case form choose
/// the same method and the same filesystem.
pub proof fn law_case_does_not_matter(name: Seq<char>)
    ensures
        method_named(text::lowered(text::lowered(name))) == method_named(text::lowered(name)),
        filesystem_named(text::lowered(text::lowered(name))) == filesystem_named(
            text::lowered(name),
        ),
{
    text::law_lowered_stays(name);
}

// ---------------------------------------------------------------------------
// Positions
// ---------------------------------------------------------------------------

/// The pair that `x,y` writes, white space around the numbers left out.
pub open spec fn pair(s: Seq<char>) -> Result<(i32, i32), Problem> {
    let parts = text::split_on(s, ',', None);
    if parts.len() != 2 {
        Err(Problem::NotAPair(s))
    } else {
        match (text::number(text::trimmed(parts[0])), text::number(text::trimmed(parts[1]))) {
            (Some(x), Some(y)) => Ok((x, y)),
            (None, _) => Err(Problem::InvalidX(text::trimmed(parts[0]))),
            (_, None) => Err(Problem::InvalidY(text::trimmed(parts[1]))),
        }
    }
}

/// Parse a "x,y" string into a tuple of i32 values.
pub fn parse_xy(s: &str) -> (r: Result<(i32, i32), OptionError>)
    ensures
        outcome(r) == pair(s@),
{
    let parts = text::split(s, ',', None);
    let ghost pieces = text::split_on(s@, ',', None);
    if parts.len() != 2 {
        return Err(OptionError::NotAPair(s.to_owned()));
    }
    assert(pieces[0] == parts@[0]@ && pieces[1] == parts@[1]@);
    let x_str = text::trim(parts[0].as_str());
    let y_str = text::trim(parts[1].as_str());
    let x: i32 = match text::parse_number(x_str.as_str()) {
        Some(x) => x,
        None => {
            return Err(OptionError::InvalidX(x_str));
        },
    };
    let y: i32 = match text::parse_number(y_str.as_str()) {
        Some(y) => y,
        None => {
            return Err(OptionError::InvalidY(y_str));
        },
    };
    Ok((x, y))
}

/// Every pair of 32-bit numbers is read back from the text that writes it.
pub proof fn law_pair_reads_back(x: i32, y: i32)
    ensures
        pair(text::decimal(x as int).push(',') + text::decimal(y as int)) == Ok::<
            (i32, i32),
            Problem,
        >((x, y)),
{
    text::lemma_decimal_without(x as int, ',');
    text::lemma_decimal_without(y as int, ',');
    text::law_split_in_two(text::decimal(x as int), text::decimal(y as int), ',');
    text::law_decimal_is_trimmed(x as int);
    text::law_decimal_is_trimmed(y as int);
    text::law_number_reads_back(x);
    text::law_number_reads_back(y);
}

/// Whether a value, in lower case, asks for the default position.
pub open spec fn is_yes(lower: Seq<char>) -> bool {
    lower == "yes"@ || lower == "true"@ || lower == "1"@
}

/// The position of a drop link.
pub open spec fn link_position(s: Seq<char>, default: (i32, i32)) -> Result<(i32, i32), Problem> {
    if is_yes(text::lowered(s)) {
        Ok(default)
    } else {
        pair(s)
    }
}

/// Parse the --app-drop-link or --ql-drop-link value.
/// Accepts "yes" (default position), "x,y" (custom position).
pub fn parse_drop_link(s: &str, default_pos: (i32, i32)) -> (r: Result<(i32, i32), OptionError>)
    ensures
        outcome(r) == link_position(s@, default_pos),
{
    let lower = text::to_lower(s);
    if text::same(lower.as_str(), "yes") || text::same(lower.as_str(), "true") || text::same(
        lower.as_str(),
        "1",
    ) {
        return Ok(default_pos);
    }
    parse_xy(s)
}

/// The icon and position that `name,x,y` writes.
pub open spec fn placed_icon(s: Seq<char>) -> Result<(Seq<char>, i32, i32), Problem> {
    let parts = text::split_on(s, ',', None);
    if parts.len() != 3 {
        Err(Problem::IconFormat(s))
    } else {
        match (text::number(text::trimmed(parts[1])), text::number(text::trimmed(parts[2]))) {
            (Some(x), Some(y)) => Ok((text::trimmed(parts[0]), x, y)),
            (None, _) => Err(Problem::InvalidX(text::trimmed(parts[1]))),
            (_, None) => Err(Problem::InvalidY(text::trimmed(parts[2]))),
        }
    }
}

/// Parse a "name,x,y" string into a name and a position.
pub fn parse_icon(s: &str) -> (r: Result<(String, i32, i32), OptionError>)
    ensures
        match r {
            Ok((name, x, y)) => placed_icon(s@) == Ok::<(Seq<char>, i32, i32), Problem>(
                (name@, x, y),
            ),
            Err(e) => placed_icon(s@) == Err::<(Seq<char>, i32, i32), Problem>(e@),
        },
{
    let parts = text::split(s, ',', None);
    let ghost pieces = text::split_on(s@, ',', None);
    if parts.len() != 3 {
        return Err(OptionError::IconFormat(s.to_owned()));
    }
    assert(pieces[0] == parts@[0]@ && pieces[1] == parts@[1]@ && pieces[2] == parts@[2]@);
    let name = text::trim(parts[0].as_str());
    let x_str = text::trim(parts[1].as_str());
    let y_str = text::trim(parts[2].as_str());
    let x: i32 = match text::parse_number(x_str.as_str()) {
        Some(x) => x,
        None => {
            return Err(OptionError::InvalidX(x_str));
        },
    };
    let y: i32 = match text::parse_number(y_str.as_str()) {
        Some(y) => y,
        None => {
            return Err(OptionError::InvalidY(y_str));
        },
    };
    Ok((name, x, y))
}

/// A file to add: where it is on the host, where it goes, and the position of
/// its icon.
pub struct AddFile {
    pub source: String,
    pub target: String,
    pub position: Option<(i32, i32)>,
}

/// What an [`AddFile`] is.
pub struct AddedFile {
    pub source: Seq<char>,
    pub target: Seq<char>,
    pub position: Option<(i32, i32)>,
}

impl View for AddFile {
    type V = AddedFile;

    open spec fn view(&self) -> AddedFile {
        AddedFile { source: self.source@, target: self.target@, position: self.position }
    }
}

/// The file that `source,target` or `source,target,x,y` writes.
pub open spec fn added_file(s: Seq<char>) -> Result<AddedFile, Problem> {
    let parts = text::split_on(s, ',', Some(4));
    if parts.len() == 2 {
        Ok(
            AddedFile {
                source: text::trimmed(parts[0]),
                target: text::trimmed(parts[1]),
                position: None,
            },
        )
    } else if parts.len() == 4 {
        match (text::number(text::trimmed(parts[2])), text::number(text::trimmed(parts[3]))) {
            (Some(x), Some(y)) => Ok(
                AddedFile {
                    source: text::trimmed(parts[0]),
                    target: text::trimmed(parts[1]),
                    position: Some((x, y)),
                },
            ),
            (None, _) => Err(Problem::InvalidFileX(text::trimmed(parts[2]))),
            (_, None) => Err(Problem::InvalidFileY(text::trimmed(parts[3]))),
        }
    } else {
        Err(Problem::AddFileFormat(s))
    }
}

/// Parse a "source,target" or "source,target,x,y" string.
pub fn parse_add_file(s: &str) -> (r: Result<AddFile, OptionError>)
    ensures
        match r {
            Ok(file) => added_file(s@) == Ok::<AddedFile, Problem>(file@),
            Err(e) => added_file(s@) == Err::<AddedFile, Problem>(e@),
        },
{
    let parts = text::split(s, ',', Some(4));
    let ghost pieces = text::split_on(s@, ',', Some(4));
    if parts.len() == 2 {
        assert(pieces[0] == parts@[0]@ && pieces[1] == parts@[1]@);
        return Ok(
            AddFile {
                source: text::trim(parts[0].as_str()),
                target: text::trim(parts[1].as_str()),
                position: None,
            },
        );
    }
    if parts.len() != 4 {
        return Err(OptionError::AddFileFormat(s.to_owned()));
    }
    assert(pieces[0] == parts@[0]@ && pieces[1] == parts@[1]@);
    assert(pieces[2] == parts@[2]@ && pieces[3] == parts@[3]@);
    let x_str = text::trim(parts[2].as_str());
    let y_str = text::trim(parts[3].as_str());
    let x: i32 = match text::parse_number(x_str.as_str()) {
        Some(x) => x,
        None => {
            return Err(OptionError::InvalidFileX(x_str));
        },
    };
    let y: i32 = match text::parse_number(y_str.as_str()) {
        Some(y) => y,
        None => {
            return Err(OptionError::InvalidFileY(y_str));
        },
    };
    Ok(
        AddFile {
            source: text::trim(parts[0].as_str()),
            target: text::trim(parts[1].as_str()),
            position: Some((x, y)),
        },
    )
}

// ---------------------------------------------------------------------------
// Decorations
// ---------------------------------------------------------------------------

/// A host file that an option names, and whether it exists.
pub struct HostFile {
    pub path: PathBuf,
    pub exists: bool,
}

/// A background image, with the last component of its path, if that is a name.
pub struct BackgroundFile {
    pub path: PathBuf,
    pub exists: bool,
    pub file_name: Option<String>,
}

/// An extra file: the option's value, and whether the path that its source
/// names exists.
pub struct ExtraFile {
    pub spec_text: String,
    pub exists: bool,
}

/// The path that `PathBuf::from` makes of a text.
pub uninterp spec fn path_of(text: Seq<char>) -> PathBuf;

/// `PathBuf::from`: the path depends on nothing but the text.
#[verifier::external_body]
fn path_from(value: String) -> (path: PathBuf)
    ensures
        path == path_of(value@),
{
    PathBuf::from(value)
}

/// The options that decorations are built from.
pub struct DecorationArgs {
    pub app_drop_link: Option<String>,
    pub ql_drop_link: Option<String>,
    pub background: Option<BackgroundFile>,
    pub volume_icon: Option<HostFile>,
    pub window_pos: Option<String>,
    pub window_size: Option<String>,
    pub icon_size: Option<u32>,
    pub text_size: Option<u32>,
    pub icons: Vec<String>,
    pub hide_extensions: Vec<String>,
    pub eula: Option<HostFile>,
    pub add_files: Vec<ExtraFile>,
}

/// Decorations as built so far, or why building them ended.
pub open spec fn built(r: Result<DmgDecorationsBuilder, OptionError>) -> Result<
    Decorations,
    Problem,
> {
    match r {
        Ok(builder) => Ok(builder@),
        Err(e) => Err(e@),
    }
}

/// The two drop links, at their positions.
pub open spec fn with_links(
    d: Decorations,
    app: Option<Seq<char>>,
    ql: Option<Seq<char>>,
) -> Result<Decorations, Problem> {
    let with_app = match app {
        None => Ok(d),
        Some(value) => match link_position(value, (490, 190)) {
            Ok(pos) => Ok(Decorations { app_drop_link: Some(pos), ..d }),
            Err(e) => Err(e),
        },
    };
    match with_app {
        Err(e) => Err(e),
        Ok(d) => match ql {
            None => Ok(d),
            Some(value) => match link_position(value, (490, 390)) {
                Ok(pos) => Ok(Decorations { ql_drop_link: Some(pos), ..d }),
                Err(e) => Err(e),
            },
        },
    }
}

/// The background image and the volume icon.
pub open spec fn with_pictures(
    d: Decorations,
    background: Option<BackgroundFile>,
    volume_icon: Option<HostFile>,
) -> Result<Decorations, Problem> {
    let with_background = match background {
        None => Ok(d),
        Some(file) => if !file.exists {
            Err(Problem::BackgroundNotFound)
        } else {
            match file.file_name {
                None => Err(Problem::BackgroundWithoutName),
                Some(name) => Ok(Decorations { background: Some((file.path, name@)), ..d }),
            }
        },
    };
    match with_background {
        Err(e) => Err(e),
        Ok(d) => match volume_icon {
            None => Ok(d),
            Some(file) => if !file.exists {
                Err(Problem::VolumeIconNotFound)
            } else {
                Ok(Decorations { volicon: Some(file.path), ..d })
            },
        },
    }
}

/// The smallest size of icon labels, in points.
pub const MIN_TEXT_SIZE: u32 = 10;

/// The largest size of icon labels, in points.
pub const MAX_TEXT_SIZE: u32 = 16;

/// The window and the sizes.
pub open spec fn with_window(
    d: Decorations,
    window_pos: Option<Seq<char>>,
    window_size: Option<Seq<char>>,
    icon_size: Option<u32>,
    text_size: Option<u32>,
) -> Result<Decorations, Problem> {
    let with_pos = match window_pos {
        None => Ok(d),
        Some(value) => match pair(value) {
            Ok(pos) => Ok(Decorations { window_pos: Some(pos), ..d }),
            Err(e) => Err(e),
        },
    };
    let with_size = match with_pos {
        Err(e) => Err(e),
        Ok(d) => match window_size {
            None => Ok(d),
            Some(value) => match pair(value) {
                Ok(size) => Ok(Decorations { window_size: Some(size), ..d }),
                Err(e) => Err(e),
            },
        },
    };
    match with_size {
        Err(e) => Err(e),
        Ok(d) => if text_size is Some && !(MIN_TEXT_SIZE <= text_size->0 <= MAX_TEXT_SIZE) {
            Err(Problem::TextSize(text_size->0))
        } else {
            Ok(
                Decorations {
                    icon_size: if icon_size is Some {
                        icon_size
                    } else {
                        d.icon_size
                    },
                    text_size: if text_size is Some {
                        text_size
                    } else {
                        d.text_size
                    },
                    ..d
                },
            )
        },
    }
}

/// The icons, one after the other.
pub open spec fn with_icons(d: Decorations, icons: Seq<Seq<char>>) -> Result<Decorations, Problem>
    decreases icons.len(),
{
    if icons.len() == 0 {
        Ok(d)
    } else {
        match with_icons(d, icons.drop_last()) {
            Err(e) => Err(e),
            Ok(d) => match placed_icon(icons.last()) {
                Ok(icon) => Ok(Decorations { icon_positions: d.icon_positions.push(icon), ..d }),
                Err(e) => Err(e),
            },
        }
    }
}

/// The hidden extensions and the license.
pub open spec fn with_license(
    d: Decorations,
    hide_extensions: Seq<Seq<char>>,
    eula: Option<HostFile>,
) -> Result<Decorations, Problem> {
    let hidden = Decorations { hide_extensions: d.hide_extensions + hide_extensions, ..d };
    match eula {
        None => Ok(hidden),
        Some(file) => if !file.exists {
            Err(Problem::EulaNotFound)
        } else {
            Ok(Decorations { eula: Some(file.path), ..hidden })
        },
    }
}

/// The extra files, one after the other, each with the position of its icon
/// where it has one.
pub open spec fn with_files(d: Decorations, files: Seq<ExtraFile>) -> Result<Decorations, Problem>
    decreases files.len(),
{
    if files.len() == 0 {
        Ok(d)
    } else {
        let file = files.last();
        match with_files(d, files.drop_last()) {
            Err(e) => Err(e),
            Ok(d) => match added_file(file.spec_text@) {
                Err(e) => Err(e),
                Ok(added) => if !file.exists {
                    Err(Problem::ExtraFileNotFound(added.source))
                } else {
                    Ok(
                        Decorations {
                            extra_files: d.extra_files.push((path_of(added.source), added.target)),
                            icon_positions: match added.position {
                                Some((x, y)) => d.icon_positions.push((added.target, x, y)),
                                None => d.icon_positions,
                            },
                            ..d
                        },
                    )
                },
            },
        }
    }
}

/// The text of an optional value.
pub open spec fn option_view(value: Option<String>) -> Option<Seq<char>> {
    match value {
        Some(s) => Some(s@),
        None => None,
    }
}

/// The decorations that the options ask for, or the first problem with them,
/// in the order in which they are looked at: drop links, pictures, window,
/// icons, license, extra files.
pub open spec fn decorations_for(args: DecorationArgs) -> Result<Decorations, Problem> {
    match with_links(
        Decorations::none(),
        option_view(args.app_drop_link),
        option_view(args.ql_drop_link),
    ) {
        Err(e) => Err(e),
        Ok(d) => match with_pictures(d, args.background, args.volume_icon) {
            Err(e) => Err(e),
            Ok(d) => match with_window(
                d,
                option_view(args.window_pos),
                option_view(args.window_size),
                args.icon_size,
                args.text_size,
            ) {
                Err(e) => Err(e),
                Ok(d) => match with_icons(d, text::views(args.icons@)) {
                    Err(e) => Err(e),
                    Ok(d) => match with_license(d, text::views(args.hide_extensions@), args.eula) {
                        Err(e) => Err(e),
                        Ok(d) => with_files(d, args.add_files@),
                    },
                },
            },
        },
    }
}

fn add_links(
    builder: DmgDecorationsBuilder,
    app: &Option<String>,
    ql: &Option<String>,
) -> (r: Result<DmgDecorationsBuilder, OptionError>)
    ensures
        built(r) == with_links(builder@, option_view(*app), option_view(*ql)),
{
    let mut builder = builder;
    if let Some(value) = app {
        match parse_drop_link(value.as_str(), (490, 190)) {
            Ok(pos) => {
                builder = builder.app_drop_link(pos);
            },
            Err(e) => {
                return Err(e);
            },
        }
    }
    if let Some(value) = ql {
        match parse_drop_link(value.as_str(), (490, 390)) {
            Ok(pos) => {
                builder = builder.ql_drop_link(pos);
            },
            Err(e) => {
                return Err(e);
            },
        }
    }
    Ok(builder)
}

fn add_pictures(
    builder: DmgDecorationsBuilder,
    background: Option<BackgroundFile>,
    volume_icon: Option<HostFile>,
) -> (r: Result<DmgDecorationsBuilder, OptionError>)
    ensures
        built(r) == with_pictures(builder@, background, volume_icon),
{
    let mut builder = builder;
    if let Some(file) = background {
        if !file.exists {
            return Err(OptionError::BackgroundNotFound);
        }
        match file.file_name {
            Some(name) => {
                builder = builder.background(file.path, name);
            },
            None => {
                return Err(OptionError::BackgroundWithoutName);
            },
        }
    }
    if let Some(file) = volume_icon {
        if !file.exists {
            return Err(OptionError::VolumeIconNotFound);
        }
        builder = builder.volicon(file.path);
    }
    Ok(builder)
}

fn add_window(
    builder: DmgDecorationsBuilder,
    window_pos: &Option<String>,
    window_size: &Option<String>,
    icon_size: Option<u32>,
    text_size: Option<u32>,
) -> (r: Result<DmgDecorationsBuilder, OptionError>)
    ensures
        built(r) == with_window(
            builder@,
            option_view(*window_pos),
            option_view(*window_size),
            icon_size,
            text_size,
        ),
{
    let mut builder = builder;
    if let Some(value) = window_pos {
        match parse_xy(value.as_str()) {
            Ok(pos) => {
                builder = builder.window_pos(pos);
            },
            Err(e) => {
                return Err(e);
            },
        }
    }
    if let Some(value) = window_size {
        match parse_xy(value.as_str()) {
            Ok(size) => {
                builder = builder.window_size(size);
            },
            Err(e) => {
                return Err(e);
            },
        }
    }
    if let Some(size) = icon_size {
        builder = builder.icon_size(size);
    }
    if let Some(size) = text_size {
        if size < MIN_TEXT_SIZE || MAX_TEXT_SIZE < size {
            return Err(OptionError::TextSize(size));
        }
        builder = builder.text_size(size);
    }
    Ok(builder)
}

/// A refused icon stays refused, whatever icons follow.
proof fn lemma_icons_refused(d: Decorations, icons: Seq<Seq<char>>, i: int)
    requires
        0 <= i <= icons.len(),
        with_icons(d, icons.take(i)) is Err,
    ensures
        with_icons(d, icons) == with_icons(d, icons.take(i)),
    decreases icons.len() - i,
{
    if i < icons.len() {
        assert(icons.take(i + 1).drop_last() =~= icons.take(i));
        lemma_icons_refused(d, icons, i + 1);
    } else {
        assert(icons.take(i) =~= icons);
    }
}

fn add_icons(builder: DmgDecorationsBuilder, icons: &Vec<String>) -> (r: Result<
    DmgDecorationsBuilder,
    OptionError,
>)
    ensures
        built(r) == with_icons(builder@, text::views(icons@)),
{
    let ghost start = builder@;
    let ghost all = text::views(icons@);
    let mut current = builder;
    let mut i: usize = 0;
    assert(all.take(0) =~= Seq::empty());
    while i < icons.len()
        invariant
            start == builder@,
            i <= icons@.len(),
            all == text::views(icons@),
            with_icons(start, all.take(i as int)) == Ok::<Decorations, Problem>(current@),
        decreases icons@.len() - i,
    {
        assert(all.take(i + 1).drop_last() =~= all.take(i as int));
        assert(all.take(i + 1).last() == icons@[i as int]@);
        match parse_icon(icons[i].as_str()) {
            Ok((name, x, y)) => {
                current = current.icon_position(name, x, y);
            },
            Err(e) => {
                proof {
                    lemma_icons_refused(start, all, i + 1);
                }
                return Err(e);
            },
        }
        i += 1;
    }
    assert(all.take(i as int) =~= all);
    Ok(current)
}

fn add_license(
    builder: DmgDecorationsBuilder,
    hide_extensions: &Vec<String>,
    eula: Option<HostFile>,
) -> (r: Result<DmgDecorationsBuilder, OptionError>)
    ensures
        built(r) == with_license(builder@, text::views(hide_extensions@), eula),
{
    let ghost start = builder@;
    let ghost all = text::views(hide_extensions@);
    let mut current = builder;
    let mut i: usize = 0;
    assert(start.hide_extensions + all.take(0) =~= start.hide_extensions);
    while i < hide_extensions.len()
        invariant
            start == builder@,
            i <= hide_extensions@.len(),
            all == text::views(hide_extensions@),
            current@ == (Decorations {
                hide_extensions: start.hide_extensions + all.take(i as int),
                ..start
            }),
        decreases hide_extensions@.len() - i,
    {
        current = current.hide_extension(hide_extensions[i].clone());
        assert((start.hide_extensions + all.take(i as int)).push(all[i as int])
            =~= start.hide_extensions + all.take(i + 1));
        i += 1;
    }
    assert(all.take(i as int) =~= all);
    if let Some(file) = eula {
        if !file.exists {
            return Err(OptionError::EulaNotFound);
        }
        current = current.eula(file.path);
    }
    Ok(current)
}

/// A refused file stays refused, whatever files follow.
proof fn lemma_files_refused(d: Decorations, files: Seq<ExtraFile>, i: int)
    requires
        0 <= i <= files.len(),
        with_files(d, files.take(i)) is Err,
    ensures
        with_files(d, files) == with_files(d, files.take(i)),
    decreases files.len() - i,
{
    if i < files.len() {
        assert(files.take(i + 1).drop_last() =~= files.take(i));
        lemma_files_refused(d, files, i + 1);
    } else {
        assert(files.take(i) =~= files);
    }
}

fn add_files(builder: DmgDecorationsBuilder, files: Vec<ExtraFile>) -> (r: Result<
    DmgDecorationsBuilder,
    OptionError,
>)
    ensures
        built(r) == with_files(builder@, files@),
{
    let ghost start = builder@;
    let ghost all = files@;
    let mut current = builder;
    let mut left = files;
    let count: usize = left.len();
    let mut i: usize = 0;
    assert(all.take(0) =~= Seq::empty());
    assert(all.skip(0) =~= all);
    while i < count
        invariant
            start == builder@,
            i <= count,
            count == all.len(),
            all == files@,
            left@ == all.skip(i as int),
            with_files(start, all.take(i as int)) == Ok::<Decorations, Problem>(current@),
        decreases count - i,
    {
        assert(all.take(i + 1).drop_last() =~= all.take(i as int));
        assert(all.take(i + 1).last() == all[i as int]);
        let file = left.remove(0);
        assert(file == all[i as int]);
        assert(left@ =~= all.skip(i + 1));
        match parse_add_file(file.spec_text.as_str()) {
            Ok(added) => {
                if !file.exists {
                    proof {
                        lemma_files_refused(start, all, i + 1);
                    }
                    return Err(OptionError::ExtraFileNotFound(added.source));
                }
                current = current.extra_file(path_from(added.source), added.target.clone());
                if let Some((x, y)) = added.position {
                    current = current.icon_position(added.target, x, y);
                }
            },
            Err(e) => {
                proof {
                    lemma_files_refused(start, all, i + 1);
                }
                return Err(e);
            },
        }
        i += 1;
    }
    assert(all.take(i as int) =~= all);
    Ok(current)
}

/// Build DmgDecorations from CLI arguments.
pub fn build_decorations(args: DecorationArgs) -> (r: Result<DmgDecorations, OptionError>)
    ensures
        match r {
            Ok(decorations) => decorations_for(args) == Ok::<Decorations, Problem>(decorations@),
            Err(e) => decorations_for(args) == Err::<Decorations, Problem>(e@),
        },
{
    let builder = match add_links(
        DmgDecorations::builder(),
        &args.app_drop_link,
        &args.ql_drop_link,
    ) {
        Ok(builder) => builder,
        Err(e) => {
            return Err(e);
        },
    };
    let builder = match add_pictures(builder, args.background, args.volume_icon) {
        Ok(builder) => builder,
        Err(e) => {
            return Err(e);
        },
    };
    let builder = match add_window(
        builder,
        &args.window_pos,
        &args.window_size,
        args.icon_size,
        args.text_size,
    ) {
        Ok(builder) => builder,
        Err(e) => {
            return Err(e);
        },
    };
    let builder = match add_icons(builder, &args.icons) {
        Ok(builder) => builder,
        Err(e) => {
            return Err(e);
        },
    };
    let builder = match add_license(builder, &args.hide_extensions, args.eula) {
        Ok(builder) => builder,
        Err(e) => {
            return Err(e);
        },
    };
    match add_files(builder, args.add_files) {
        Ok(builder) => Ok(builder.build()),
        Err(e) => Err(e),
    }
}

// ---------------------------------------------------------------------------
// What options write
// ---------------------------------------------------------------------------

/// Whether `s` has `first` before its only comma and `second` behind it.
pub open spec fn is_two(s: Seq<char>, first: Seq<char>, second: Seq<char>) -> bool {
    s == first + seq![','] + second && !first.contains(',') && !second.contains(',')
}

/// Whether `s` has these parts between its two commas.
pub open spec fn is_three(
    s: Seq<char>,
    first: Seq<char>,
    second: Seq<char>,
    third: Seq<char>,
) -> bool {
    s == first + seq![','] + second + seq![','] + third && !first.contains(',') && !second.contains(
        ',',
    ) && !third.contains(',')
}

/// Whether `s` has these parts between its first three commas; the last part
/// may have more.
pub open spec fn is_four(
    s: Seq<char>,
    first: Seq<char>,
    second: Seq<char>,
    third: Seq<char>,
    fourth: Seq<char>,
) -> bool {
    s == first + seq![','] + second + seq![','] + third + seq![','] + fourth && !first.contains(',')
        && !second.contains(',') && !third.contains(',')
}

/// Whether a part writes a number, white space around it left out.
pub open spec fn writes(part: Seq<char>, n: i32) -> bool {
    text::number(text::trimmed(part)) == Some(n)
}

/// Whether `s` writes the pair x, y.
pub open spec fn writes_pair(s: Seq<char>, x: i32, y: i32) -> bool {
    exists|a: Seq<char>, b: Seq<char>| #[trigger] is_two(s, a, b) && writes(a, x) && writes(b, y)
}

/// Whether `s` writes a name and the pair x, y.
pub open spec fn writes_icon(s: Seq<char>, name: Seq<char>, x: i32, y: i32) -> bool {
    exists|a: Seq<char>, b: Seq<char>, c: Seq<char>| #[trigger]
        is_three(s, a, b, c) && name == text::trimmed(a) && writes(b, x) && writes(c, y)
}

/// Whether `s` writes a source and a target and, where there is a position, the
/// pair x, y.
pub open spec fn writes_file(
    s: Seq<char>,
    source: Seq<char>,
    target: Seq<char>,
    position: Option<(i32, i32)>,
) -> bool {
    match position {
        None => exists|a: Seq<char>, b: Seq<char>| #[trigger]
            is_two(s, a, b) && source == text::trimmed(a) && target == text::trimmed(b),
        Some((x, y)) => exists|a: Seq<char>, b: Seq<char>, c: Seq<char>, d: Seq<char>| #[trigger]
            is_four(s, a, b, c, d) && source == text::trimmed(a) && target == text::trimmed(b)
                && writes(c, x) && writes(d, y),
    }
}

/// Whether a value asks for a default position: "yes", "true" or "1", in any
/// case.
pub open spec fn asks_for_default(s: Seq<char>) -> bool {
    let lower = text::lowered(s);
    lower == seq!['y', 'e', 's'] || lower == seq!['t', 'r', 'u', 'e'] || lower == seq!['1']
}

proof fn lemma_rejoined_two(pieces: Seq<Seq<char>>)
    requires
        pieces.len() == 2,
    ensures
        text::rejoined(pieces, ',') == pieces[0] + seq![','] + pieces[1],
{
    reveal_with_fuel(text::rejoined, 3);
    assert(pieces.drop_last()[0] == pieces[0]);
    assert(text::rejoined(pieces, ',') =~= pieces[0] + seq![','] + pieces[1]);
}

proof fn lemma_rejoined_three(pieces: Seq<Seq<char>>)
    requires
        pieces.len() == 3,
    ensures
        text::rejoined(pieces, ',') == pieces[0] + seq![','] + pieces[1] + seq![','] + pieces[2],
{
    let before = pieces.drop_last();
    lemma_rejoined_two(before);
    assert(before[0] == pieces[0] && before[1] == pieces[1]);
    assert(text::rejoined(pieces, ',') =~= pieces[0] + seq![','] + pieces[1] + seq![',']
        + pieces[2]);
}

proof fn lemma_rejoined_four(pieces: Seq<Seq<char>>)
    requires
        pieces.len() == 4,
    ensures
        text::rejoined(pieces, ',') == pieces[0] + seq![','] + pieces[1] + seq![','] + pieces[2]
            + seq![','] + pieces[3],
{
    let before = pieces.drop_last();
    lemma_rejoined_three(before);
    assert(before[0] == pieces[0] && before[1] == pieces[1] && before[2] == pieces[2]);
    assert(text::rejoined(pieces, ',') =~= pieces[0] + seq![','] + pieces[1] + seq![',']
        + pieces[2] + seq![','] + pieces[3]);
}

/// A text with a comma more has a piece more.
proof fn lemma_one_more(before: Seq<char>, last: Seq<char>, limit: Option<usize>)
    requires
        !last.contains(',') || limit is Some && text::split_on(before, ',', limit).len() + 1
            == limit->0,
        limit is Some ==> text::split_on(before, ',', limit).len() < limit->0,
    ensures
        text::split_on(before + seq![','] + last, ',', limit) == text::split_on(
            before,
            ',',
            limit,
        ).push(last),
    decreases last.len(),
{
    let s = before + seq![','] + last;
    let pieces = text::split_on(before, ',', limit);
    if last.len() == 0 {
        assert(s.drop_last() =~= before);
        assert(last =~= Seq::empty());
    } else {
        let shorter = last.drop_last();
        assert forall|i: int| 0 <= i < shorter.len() && shorter[i] == ',' implies last.contains(
            ',',
        ) by {
            assert(last[i] == ',');
        }
        lemma_one_more(before, shorter, limit);
        assert(s.drop_last() =~= before + seq![','] + shorter);
        assert(pieces.push(shorter).drop_last() =~= pieces);
        assert(shorter.push(last.last()) =~= last);
        if last.last() == ',' {
            assert(last[last.len() - 1] == ',');
            assert(last.contains(','));
        }
    }
}

proof fn lemma_one(s: Seq<char>, limit: Option<usize>)
    requires
        !s.contains(','),
    ensures
        text::split_on(s, ',', limit) == seq![s],
    decreases s.len(),
{
    if s.len() == 0 {
        assert(s =~= Seq::empty());
    } else {
        let before = s.drop_last();
        assert forall|i: int| 0 <= i < before.len() && before[i] == ',' implies s.contains(',') by {
            assert(s[i] == ',');
        }
        lemma_one(before, limit);
        assert(s.contains(s.last())) by {
            assert(s[s.len() - 1] == s.last());
        }
        assert(before.push(s.last()) =~= s);
        assert(text::split_on(s, ',', limit) =~= seq![s]);
    }
}

proof fn lemma_two(s: Seq<char>, a: Seq<char>, b: Seq<char>, limit: Option<usize>)
    requires
        is_two(s, a, b),
        limit is Some ==> limit->0 > 2,
    ensures
        text::split_on(s, ',', limit) == seq![a, b],
{
    lemma_one(a, limit);
    lemma_one_more(a, b, limit);
    assert(seq![a].push(b) =~= seq![a, b]);
}

proof fn lemma_three(s: Seq<char>, a: Seq<char>, b: Seq<char>, c: Seq<char>, limit: Option<usize>)
    requires
        is_three(s, a, b, c),
        limit is Some ==> limit->0 > 3,
    ensures
        text::split_on(s, ',', limit) == seq![a, b, c],
{
    let before = a + seq![','] + b;
    lemma_two(before, a, b, limit);
    lemma_one_more(before, c, limit);
    assert(seq![a, b].push(c) =~= seq![a, b, c]);
}

proof fn lemma_four(
    s: Seq<char>,
    a: Seq<char>,
    b: Seq<char>,
    c: Seq<char>,
    d: Seq<char>,
)
    requires
        is_four(s, a, b, c, d),
    ensures
        text::split_on(s, ',', Some(4)) == seq![a, b, c, d],
{
    let before = a + seq![','] + b + seq![','] + c;
    lemma_three(before, a, b, c, Some(4));
    lemma_one_more(before, d, Some(4));
    assert(seq![a, b, c].push(d) =~= seq![a, b, c, d]);
}

/// A pair is accepted exactly where the text writes one, and is then that.
pub proof fn law_pair_is_what_is_written(s: Seq<char>, x: i32, y: i32)
    ensures
        pair(s) == Ok::<(i32, i32), Problem>((x, y)) <==> writes_pair(s, x, y),
{
    let parts = text::split_on(s, ',', None);
    text::law_pieces_rejoin(s, ',', None);
    if parts.len() == 2 {
        lemma_rejoined_two(parts);
        assert(is_two(s, parts[0], parts[1]));
    }
    if writes_pair(s, x, y) {
        let (a, b) = choose|a: Seq<char>, b: Seq<char>| #[trigger]
            is_two(s, a, b) && writes(a, x) && writes(b, y);
        lemma_two(s, a, b, None);
    }
}

/// An icon is accepted exactly where the text writes one, and is then that.
pub proof fn law_icon_is_what_is_written(s: Seq<char>, name: Seq<char>, x: i32, y: i32)
    ensures
        placed_icon(s) == Ok::<(Seq<char>, i32, i32), Problem>((name, x, y)) <==> writes_icon(
            s,
            name,
            x,
            y,
        ),
{
    let parts = text::split_on(s, ',', None);
    text::law_pieces_rejoin(s, ',', None);
    if parts.len() == 3 {
        lemma_rejoined_three(parts);
        assert(is_three(s, parts[0], parts[1], parts[2]));
    }
    if writes_icon(s, name, x, y) {
        let (a, b, c) = choose|a: Seq<char>, b: Seq<char>, c: Seq<char>| #[trigger]
            is_three(s, a, b, c) && name == text::trimmed(a) && writes(b, x) && writes(c, y);
        lemma_three(s, a, b, c, None);
    }
}

/// An extra file is accepted exactly where the text writes one, and is then
/// that.
pub proof fn law_file_is_what_is_written(
    s: Seq<char>,
    source: Seq<char>,
    target: Seq<char>,
    position: Option<(i32, i32)>,
)
    ensures
        added_file(s) == Ok::<AddedFile, Problem>(AddedFile { source, target, position })
            <==> writes_file(s, source, target, position),
{
    let parts = text::split_on(s, ',', Some(4));
    text::law_pieces_rejoin(s, ',', Some(4));
    if parts.len() == 2 {
        lemma_rejoined_two(parts);
        assert(is_two(s, parts[0], parts[1]));
    } else if parts.len() == 4 {
        lemma_rejoined_four(parts);
        assert(is_four(s, parts[0], parts[1], parts[2], parts[3]));
    }
    if writes_file(s, source, target, position) {
        match position {
            None => {
                let (a, b) = choose|a: Seq<char>, b: Seq<char>| #[trigger]
                    is_two(s, a, b) && source == text::trimmed(a) && target == text::trimmed(b);
                lemma_two(s, a, b, Some(4));
            },
            Some((x, y)) => {
                let (a, b, c, d) = choose|
                    a: Seq<char>,
                    b: Seq<char>,
                    c: Seq<char>,
                    d: Seq<char>,
                | #[trigger]
                    is_four(s, a, b, c, d) && source == text::trimmed(a) && target == text::trimmed(
                        b,
                    ) && writes(c, x) && writes(d, y);
                lemma_four(s, a, b, c, d);
            },
        }
    }
}

/// A drop link goes to the default position where that is asked for, and
/// otherwise where the text writes.
pub proof fn law_link_goes_where_it_is_written(s: Seq<char>, default: (i32, i32), x: i32, y: i32)
    ensures
        asks_for_default(s) ==> link_position(s, default) == Ok::<(i32, i32), Problem>(default),
        !asks_for_default(s) ==> (link_position(s, default) == Ok::<(i32, i32), Problem>((x, y))
            <==> writes_pair(s, x, y)),
{
    reveal_strlit("yes");
    reveal_strlit("true");
    reveal_strlit("1");
    assert("yes"@ =~= seq!['y', 'e', 's']);
    assert("true"@ =~= seq!['t', 'r', 'u', 'e']);
    assert("1"@ =~= seq!['1']);
    law_pair_is_what_is_written(s, x, y);
}

// ---------------------------------------------------------------------------
// What decorations come of options
// ---------------------------------------------------------------------------

/// Whether a drop link is the one that an option asks for, if any.
pub open spec fn link_for(
    value: Option<String>,
    default: (i32, i32),
    link: Option<(i32, i32)>,
) -> bool {
    match value {
        None => link is None,
        Some(value) => link is Some && if asks_for_default(value@) {
            link->0 == default
        } else {
            writes_pair(value@, (link->0).0, (link->0).1)
        },
    }
}

/// Whether a pair is the one that an option writes, if any.
pub open spec fn pair_for(value: Option<String>, found: Option<(i32, i32)>) -> bool {
    match value {
        None => found is None,
        Some(value) => found is Some && writes_pair(value@, (found->0).0, (found->0).1),
    }
}

/// Whether a path is that of a host file that exists, if there is one.
pub open spec fn path_for(file: Option<HostFile>, path: Option<PathBuf>) -> bool {
    match file {
        None => path is None,
        Some(file) => file.exists && path == Some(file.path),
    }
}

/// Whether an extra file exists and goes from where to where its option writes.
pub open spec fn file_for(file: ExtraFile, extra: (PathBuf, Seq<char>)) -> bool {
    file.exists && exists|source: Seq<char>, position: Option<(i32, i32)>| #[trigger]
        writes_file(file.spec_text@, source, extra.1, position) && extra.0 == path_of(source)
}

/// Whether the icon of an extra file stands where its option writes.
pub open spec fn icon_for(file: ExtraFile, icon: (Seq<char>, i32, i32)) -> bool {
    exists|source: Seq<char>| #[trigger]
        writes_file(file.spec_text@, source, icon.0, Some((icon.1, icon.2)))
}

/// Whether the option of an extra file writes a position.
pub open spec fn has_position(file: ExtraFile) -> bool {
    exists|source: Seq<char>, target: Seq<char>, x: i32, y: i32| #[trigger]
        writes_file(file.spec_text@, source, target, Some((x, y)))
}

/// Whether icons are those of the extra files that have a position, in order.
pub open spec fn icons_for(files: Seq<ExtraFile>, icons: Seq<(Seq<char>, i32, i32)>) -> bool {
    exists|at: Seq<int>|
        #![trigger places_of(at, files, icons)]
        places_of(at, files, icons)
}

/// Whether the icons are those of the files at `at`, which are all that have a
/// position.
pub open spec fn places_of(
    at: Seq<int>,
    files: Seq<ExtraFile>,
    icons: Seq<(Seq<char>, i32, i32)>,
) -> bool {
    &&& at.len() == icons.len()
    &&& forall|k: int|
        0 <= k < at.len() ==> 0 <= (#[trigger] at[k]) < files.len() && icon_for(
            files[at[k]],
            icons[k],
        )
    &&& forall|a: int, b: int| #![trigger at[a], at[b]] 0 <= a < b < at.len() ==> at[a] < at[b]
    &&& forall|i: int|
        0 <= i < files.len() && has_position(#[trigger] files[i]) ==> at.contains(i)
}

/// Whether decorations are those that the options ask for.
pub open spec fn fulfils(args: DecorationArgs, d: Decorations) -> bool {
    let named = args.icons@.len() as int;
    &&& link_for(args.app_drop_link, (490, 190), d.app_drop_link)
    &&& link_for(args.ql_drop_link, (490, 390), d.ql_drop_link)
    &&& match args.background {
        None => d.background is None,
        Some(file) => file.exists && file.file_name is Some && d.background == Some(
            (file.path, file.file_name->0@),
        ),
    }
    &&& path_for(args.volume_icon, d.volicon)
    &&& pair_for(args.window_pos, d.window_pos)
    &&& pair_for(args.window_size, d.window_size)
    &&& d.icon_size == args.icon_size
    &&& d.text_size == args.text_size
    &&& d.text_size is Some ==> 10 <= d.text_size->0 <= 16
    &&& named <= d.icon_positions.len()
    &&& forall|i: int|
        0 <= i < named ==> writes_icon(
            (#[trigger] args.icons@[i])@,
            d.icon_positions[i].0,
            d.icon_positions[i].1,
            d.icon_positions[i].2,
        )
    &&& icons_for(args.add_files@, d.icon_positions.skip(named))
    &&& d.hide_extensions.len() == args.hide_extensions@.len()
    &&& forall|i: int|
        0 <= i < args.hide_extensions@.len() ==> (#[trigger] args.hide_extensions@[i])@
            == d.hide_extensions[i]
    &&& path_for(args.eula, d.eula)
    &&& d.extra_files.len() == args.add_files@.len()
    &&& forall|i: int|
        0 <= i < args.add_files@.len() ==> file_for(
            #[trigger] args.add_files@[i],
            d.extra_files[i],
        )
}

/// Accepted icons are added one after the other.
proof fn lemma_icons_added(before: Decorations, icons: Seq<Seq<char>>, after: Decorations)
    requires
        with_icons(before, icons) == Ok::<Decorations, Problem>(after),
    ensures
        ({
            let n = before.icon_positions.len() as int;
            &&& after == (Decorations { icon_positions: after.icon_positions, ..before })
            &&& after.icon_positions.len() == n + icons.len()
            &&& after.icon_positions.take(n) == before.icon_positions
            &&& forall|i: int|
                0 <= i < icons.len() ==> writes_icon(
                    #[trigger] icons[i],
                    after.icon_positions[n + i].0,
                    after.icon_positions[n + i].1,
                    after.icon_positions[n + i].2,
                )
        }),
    decreases icons.len(),
{
    let n = before.icon_positions.len() as int;
    if icons.len() == 0 {
        assert(after.icon_positions.take(n) =~= before.icon_positions);
    } else {
        let last = icons.len() - 1;
        let middle = with_icons(before, icons.drop_last())->Ok_0;
        let icon = placed_icon(icons.last())->Ok_0;
        lemma_icons_added(before, icons.drop_last(), middle);
        law_icon_is_what_is_written(icons.last(), icon.0, icon.1, icon.2);
        assert(after.icon_positions == middle.icon_positions.push(icon));
        assert(after.icon_positions.take(n) =~= middle.icon_positions.take(n));
        assert forall|i: int| 0 <= i < icons.len() implies writes_icon(
            #[trigger] icons[i],
            after.icon_positions[n + i].0,
            after.icon_positions[n + i].1,
            after.icon_positions[n + i].2,
        ) by {
            if i < last {
                assert(icons.drop_last()[i] == icons[i]);
                assert(after.icon_positions[n + i] == middle.icon_positions[n + i]);
            } else {
                assert(icons[i] == icons.last());
                assert(after.icon_positions[n + i] == icon);
            }
        }
    }
}

/// Accepted files are added one after the other, and so are their icons.
proof fn lemma_files_added(before: Decorations, files: Seq<ExtraFile>, after: Decorations) -> (at:
    Seq<int>)
    requires
        with_files(before, files) == Ok::<Decorations, Problem>(after),
    ensures
        ({
            let n = before.icon_positions.len() as int;
            let m = before.extra_files.len() as int;
            &&& after == (Decorations {
                icon_positions: after.icon_positions,
                extra_files: after.extra_files,
                ..before
            })
            &&& after.extra_files.len() == m + files.len()
            &&& after.icon_positions.len() >= n
            &&& after.icon_positions.take(n) == before.icon_positions
            &&& forall|i: int|
                0 <= i < files.len() ==> file_for(#[trigger] files[i], after.extra_files[m + i])
            &&& places_of(at, files, after.icon_positions.skip(n))
        }),
    decreases files.len(),
{
    let n = before.icon_positions.len() as int;
    let m = before.extra_files.len() as int;
    if files.len() == 0 {
        assert(after.icon_positions.take(n) =~= before.icon_positions);
        assert(places_of(Seq::empty(), files, after.icon_positions.skip(n)));
        Seq::empty()
    } else {
        let last = files.len() - 1;
        let others = files.drop_last();
        let file = files.last();
        let middle = with_files(before, others)->Ok_0;
        let earlier = lemma_files_added(before, others, middle);
        let added = added_file(file.spec_text@)->Ok_0;
        assert(files[last] == file);
        law_file_is_what_is_written(
            file.spec_text@,
            added.source,
            added.target,
            added.position,
        );
        assert(added_file(file.spec_text@) == Ok::<AddedFile, Problem>(
            AddedFile { source: added.source, target: added.target, position: added.position },
        ));
        assert(writes_file(file.spec_text@, added.source, added.target, added.position));
        let extra = (path_of(added.source), added.target);
        assert(file.exists);
        assert(writes_file(file.spec_text@, added.source, extra.1, added.position));
        assert(file_for(file, extra));
        assert(after.extra_files == middle.extra_files.push(
            (path_of(added.source), added.target),
        ));
        assert forall|i: int| 0 <= i < files.len() implies file_for(
            #[trigger] files[i],
            after.extra_files[m + i],
        ) by {
            if i < last {
                assert(others[i] == files[i]);
                assert(after.extra_files[m + i] == middle.extra_files[m + i]);
            } else {
                assert(after.extra_files[m + i] == (path_of(added.source), added.target));
            }
        }
        assert(after.icon_positions.take(n) =~= middle.icon_positions.take(n));
        let at = if added.position is Some {
            earlier.push(last)
        } else {
            earlier
        };
        let icons = after.icon_positions.skip(n);
        let before_icons = middle.icon_positions.skip(n);
        if added.position is Some {
            let (x, y) = added.position->0;
            assert(icons =~= before_icons.push((added.target, x, y)));
            let icon = (added.target, x, y);
            assert(added.position == Some((icon.1, icon.2)));
            assert(writes_file(file.spec_text@, added.source, icon.0, Some((icon.1, icon.2))));
            assert(icon_for(file, icon));
        } else {
            assert(icons == before_icons);
        }
        assert forall|k: int| 0 <= k < at.len() implies 0 <= (#[trigger] at[k]) < files.len()
            && icon_for(files[at[k]], icons[k]) by {
            if k < earlier.len() {
                assert(at[k] == earlier[k]);
                assert(others[earlier[k]] == files[earlier[k]]);
                assert(icons[k] == before_icons[k]);
            }
        }
        assert forall|a: int, b: int|
            #![trigger at[a], at[b]]
            0 <= a < b < at.len() implies at[a] < at[b] by {
            assert(at[a] == earlier[a]);
            if b < earlier.len() {
                assert(at[b] == earlier[b]);
            }
        }
        assert forall|i: int| 0 <= i < files.len() && has_position(
            #[trigger] files[i],
        ) implies at.contains(i) by {
            if i < last {
                assert(others[i] == files[i]);
                assert(earlier.contains(i));
                let k = choose|k: int| 0 <= k < earlier.len() && earlier[k] == i;
                assert(at[k] == i);
            } else {
                let (source, target, x, y) = choose|
                    source: Seq<char>,
                    target: Seq<char>,
                    x: i32,
                    y: i32,
                | #[trigger]
                    writes_file(file.spec_text@, source, target, Some((x, y)));
                law_file_is_what_is_written(file.spec_text@, source, target, Some((x, y)));
                assert(added.position == Some((x, y)));
                assert(at[earlier.len() as int] == last);
            }
        }
        at
    }
}

/// Where the options are accepted, the decorations are those that they ask for:
/// every value is the one that its option writes, and what can be given several
/// times is there once for each time, in order.
pub proof fn law_decorations_are_what_was_asked_for(args: DecorationArgs, d: Decorations)
    requires
        decorations_for(args) == Ok::<Decorations, Problem>(d),
    ensures
        fulfils(args, d),
{
    let app = option_view(args.app_drop_link);
    let ql = option_view(args.ql_drop_link);
    let pos = option_view(args.window_pos);
    let size = option_view(args.window_size);
    let icons = text::views(args.icons@);
    let hidden = text::views(args.hide_extensions@);
    let none = Decorations::none();
    let d1 = with_links(none, app, ql)->Ok_0;
    let d2 = with_pictures(d1, args.background, args.volume_icon)->Ok_0;
    let d3 = with_window(d2, pos, size, args.icon_size, args.text_size)->Ok_0;
    let d4 = with_icons(d3, icons)->Ok_0;
    let d5 = with_license(d4, hidden, args.eula)->Ok_0;
    lemma_icons_added(d3, icons, d4);
    let at = lemma_files_added(d5, args.add_files@, d);
    if let Some(value) = args.app_drop_link {
        let p = d1.app_drop_link->0;
        law_link_goes_where_it_is_written(value@, (490, 190), p.0, p.1);
    }
    if let Some(value) = args.ql_drop_link {
        let p = d1.ql_drop_link->0;
        law_link_goes_where_it_is_written(value@, (490, 390), p.0, p.1);
    }
    if let Some(value) = args.window_pos {
        let p = d3.window_pos->0;
        law_pair_is_what_is_written(value@, p.0, p.1);
    }
    if let Some(value) = args.window_size {
        let p = d3.window_size->0;
        law_pair_is_what_is_written(value@, p.0, p.1);
    }
    let named = args.icons@.len() as int;
    assert(d5.icon_positions.len() == named);
    assert forall|i: int| 0 <= i < named implies writes_icon(
        (#[trigger] args.icons@[i])@,
        d.icon_positions[i].0,
        d.icon_positions[i].1,
        d.icon_positions[i].2,
    ) by {
        assert(icons[i] == args.icons@[i]@);
        assert(d.icon_positions.take(named)[i] == d.icon_positions[i]);
        assert(d4.icon_positions[0 + i] == d.icon_positions[i]);
    }
    assert(places_of(at, args.add_files@, d.icon_positions.skip(named)));
    assert forall|i: int| 0 <= i < args.hide_extensions@.len() implies (
    #[trigger] args.hide_extensions@[i])@ == d.hide_extensions[i] by {
        assert(hidden[i] == args.hide_extensions@[i]@);
    }
    assert(d5.extra_files.len() == 0);
    assert forall|i: int| 0 <= i < args.add_files@.len() implies file_for(
        #[trigger] args.add_files@[i],
        d.extra_files[i],
    ) by {
        assert(d.extra_files[0 + i] == d.extra_files[i]);
    }
}

/// Whether a drop link can be had from an option.
pub open spec fn link_is_good(value: Option<String>) -> bool {
    value is Some ==> asks_for_default(value->0@) || exists|x: i32, y: i32| #[trigger]
        writes_pair(value->0@, x, y)
}

/// Whether a pair can be had from an option.
pub open spec fn pair_is_good(value: Option<String>) -> bool {
    value is Some ==> exists|x: i32, y: i32| #[trigger] writes_pair(value->0@, x, y)
}

/// Whether the host file of an option, if any, exists.
pub open spec fn host_is_good(file: Option<HostFile>) -> bool {
    file is Some ==> file->0.exists
}

/// Whether an option writes an icon.
pub open spec fn icon_is_good(value: Seq<char>) -> bool {
    exists|name: Seq<char>, x: i32, y: i32| #[trigger] writes_icon(value, name, x, y)
}

/// Whether an option writes an extra file, and that exists.
pub open spec fn file_is_good(file: ExtraFile) -> bool {
    file.exists && exists|source: Seq<char>, target: Seq<char>, position: Option<(i32, i32)>|
     #[trigger]
        writes_file(file.spec_text@, source, target, position)
}

/// Whether nothing is wrong with any option.
pub open spec fn all_good(args: DecorationArgs) -> bool {
    &&& link_is_good(args.app_drop_link)
    &&& link_is_good(args.ql_drop_link)
    &&& args.background is Some ==> args.background->0.exists
        && args.background->0.file_name is Some
    &&& host_is_good(args.volume_icon)
    &&& pair_is_good(args.window_pos)
    &&& pair_is_good(args.window_size)
    &&& args.text_size is Some ==> 10 <= args.text_size->0 <= 16
    &&& forall|i: int| 0 <= i < args.icons@.len() ==> icon_is_good((#[trigger] args.icons@[i])@)
    &&& host_is_good(args.eula)
    &&& forall|i: int| 0 <= i < args.add_files@.len() ==> file_is_good(#[trigger] args.add_files@[i])
}

proof fn lemma_pair_is_good(value: Seq<char>)
    ensures
        pair(value) is Ok <==> exists|x: i32, y: i32| #[trigger] writes_pair(value, x, y),
{
    if pair(value) is Ok {
        let p = pair(value)->Ok_0;
        law_pair_is_what_is_written(value, p.0, p.1);
        assert(writes_pair(value, p.0, p.1));
    }
    if exists|x: i32, y: i32| #[trigger] writes_pair(value, x, y) {
        let (x, y) = choose|x: i32, y: i32| #[trigger] writes_pair(value, x, y);
        law_pair_is_what_is_written(value, x, y);
    }
}

proof fn lemma_link_is_good(value: Seq<char>, default: (i32, i32))
    ensures
        link_position(value, default) is Ok <==> asks_for_default(value) || exists|x: i32, y: i32|
         #[trigger]
            writes_pair(value, x, y),
{
    law_link_goes_where_it_is_written(value, default, 0, 0);
    lemma_pair_is_good(value);
    reveal_strlit("yes");
    reveal_strlit("true");
    reveal_strlit("1");
    assert("yes"@ =~= seq!['y', 'e', 's']);
    assert("true"@ =~= seq!['t', 'r', 'u', 'e']);
    assert("1"@ =~= seq!['1']);
}

proof fn lemma_icons_are_good(d: Decorations, icons: Seq<Seq<char>>)
    ensures
        with_icons(d, icons) is Ok <==> forall|i: int|
            0 <= i < icons.len() ==> icon_is_good(#[trigger] icons[i]),
    decreases icons.len(),
{
    if icons.len() > 0 {
        let last = icons.last();
        let others = icons.drop_last();
        lemma_icons_are_good(d, others);
        assert(icons[icons.len() - 1] == last);
        if placed_icon(last) is Ok {
            let icon = placed_icon(last)->Ok_0;
            law_icon_is_what_is_written(last, icon.0, icon.1, icon.2);
            assert(writes_icon(last, icon.0, icon.1, icon.2));
            assert(icon_is_good(last));
        }
        if icon_is_good(last) {
            let (name, x, y) = choose|name: Seq<char>, x: i32, y: i32| #[trigger]
                writes_icon(last, name, x, y);
            law_icon_is_what_is_written(last, name, x, y);
        }
        if with_icons(d, icons) is Ok {
            assert forall|i: int| 0 <= i < icons.len() implies icon_is_good(#[trigger] icons[i]) by {
                if i < others.len() {
                    assert(others[i] == icons[i]);
                }
            }
        }
        if forall|i: int| 0 <= i < icons.len() ==> icon_is_good(#[trigger] icons[i]) {
            assert forall|i: int| 0 <= i < others.len() implies icon_is_good(
                #[trigger] others[i],
            ) by {
                assert(others[i] == icons[i]);
            }
        }
    }
}

proof fn lemma_files_are_good(d: Decorations, files: Seq<ExtraFile>)
    ensures
        with_files(d, files) is Ok <==> forall|i: int|
            0 <= i < files.len() ==> file_is_good(#[trigger] files[i]),
    decreases files.len(),
{
    if files.len() > 0 {
        let last = files.last();
        let others = files.drop_last();
        lemma_files_are_good(d, others);
        assert(files[files.len() - 1] == last);
        if added_file(last.spec_text@) is Ok {
            let added = added_file(last.spec_text@)->Ok_0;
            law_file_is_what_is_written(
                last.spec_text@,
                added.source,
                added.target,
                added.position,
            );
            assert(writes_file(last.spec_text@, added.source, added.target, added.position));
        }
        if file_is_good(last) {
            let (source, target, position) = choose|
                source: Seq<char>,
                target: Seq<char>,
                position: Option<(i32, i32)>,
            | #[trigger]
                writes_file(last.spec_text@, source, target, position);
            law_file_is_what_is_written(last.spec_text@, source, target, position);
        }
        if with_files(d, files) is Ok {
            assert forall|i: int| 0 <= i < files.len() implies file_is_good(#[trigger] files[i]) by {
                if i < others.len() {
                    assert(others[i] == files[i]);
                }
            }
        }
        if forall|i: int| 0 <= i < files.len() ==> file_is_good(#[trigger] files[i]) {
            assert forall|i: int| 0 <= i < others.len() implies file_is_good(
                #[trigger] others[i],
            ) by {
                assert(others[i] == files[i]);
            }
        }
    }
}

/// The options are accepted exactly where nothing is wrong with any of them.
pub proof fn law_good_options_are_accepted(args: DecorationArgs)
    ensures
        decorations_for(args) is Ok <==> all_good(args),
{
    let app = option_view(args.app_drop_link);
    let ql = option_view(args.ql_drop_link);
    let pos = option_view(args.window_pos);
    let size = option_view(args.window_size);
    let icons = text::views(args.icons@);
    let hidden = text::views(args.hide_extensions@);
    let d1 = with_links(Decorations::none(), app, ql)->Ok_0;
    let d2 = with_pictures(d1, args.background, args.volume_icon)->Ok_0;
    let d3 = with_window(d2, pos, size, args.icon_size, args.text_size)->Ok_0;
    let d4 = with_icons(d3, icons)->Ok_0;
    let d5 = with_license(d4, hidden, args.eula)->Ok_0;
    if let Some(value) = args.app_drop_link {
        lemma_link_is_good(value@, (490, 190));
    }
    if let Some(value) = args.ql_drop_link {
        lemma_link_is_good(value@, (490, 390));
    }
    if let Some(value) = args.window_pos {
        lemma_pair_is_good(value@);
    }
    if let Some(value) = args.window_size {
        lemma_pair_is_good(value@);
    }
    lemma_icons_are_good(d3, icons);
    lemma_files_are_good(d5, args.add_files@);
    assert forall|i: int| 0 <= i < icons.len() implies icons[i] == (#[trigger] args.icons@[i])@ by {}
    assert((forall|i: int| 0 <= i < icons.len() ==> icon_is_good(#[trigger] icons[i])) <==> (
    forall|i: int|
        0 <= i < args.icons@.len() ==> icon_is_good((#[trigger] args.icons@[i])@))) by {
        if forall|i: int| 0 <= i < icons.len() ==> icon_is_good(#[trigger] icons[i]) {
            assert forall|i: int| 0 <= i < args.icons@.len() implies icon_is_good(
                (#[trigger] args.icons@[i])@,
            ) by {
                assert(icons[i] == args.icons@[i]@);
            }
        }
        if forall|i: int|
            0 <= i < args.icons@.len() ==> icon_is_good((#[trigger] args.icons@[i])@) {
            assert forall|i: int| 0 <= i < icons.len() implies icon_is_good(#[trigger] icons[i]) by {
                assert(icons[i] == args.icons@[i]@);
            }
        }
    }
    assert(with_links(Decorations::none(), app, ql) is Ok <==> link_is_good(args.app_drop_link)
        && link_is_good(args.ql_drop_link));
    assert(with_window(d2, pos, size, args.icon_size, args.text_size) is Ok <==> pair_is_good(
        args.window_pos,
    ) && pair_is_good(args.window_size) && (args.text_size is Some ==> 10 <= args.text_size->0
        <= 16));
}

/// Every method goes by its names, in any case, and by no other.
pub proof fn law_methods_go_by_their_names(s: Seq<char>)
    ensures
        ({
            let name = text::lowered(s);
            let method = method_named(name);
            &&& method == Some(CompressionMethod::Raw) <==> (name == "raw"@ || name == "none"@)
            &&& method == Some(CompressionMethod::Zlib) <==> (name == "udzo"@ || name == "zlib"@ || name == "deflate"@)
            &&& method == Some(CompressionMethod::Bzip2) <==> (name == "udbz"@ || name == "bzip2"@ || name == "bz2"@)
            &&& method == Some(CompressionMethod::Lzfse) <==> (name == "ulfo"@ || name == "lzfse"@)
            &&& method == Some(CompressionMethod::Xz) <==> (name == "ulmo"@ || name == "xz"@ || name == "lzma"@ || name == "lzma2"@)
        }),
{
    reveal_strlit("raw");
    reveal_strlit("none");
    reveal_strlit("udzo");
    reveal_strlit("zlib");
    reveal_strlit("deflate");
    reveal_strlit("udbz");
    reveal_strlit("bzip2");
    reveal_strlit("bz2");
    reveal_strlit("ulfo");
    reveal_strlit("lzfse");
    reveal_strlit("ulmo");
    reveal_strlit("xz");
    reveal_strlit("lzma");
    reveal_strlit("lzma2");
    assert("raw"@[0] != "bz2"@[0]);
    assert("none"@[0] != "udzo"@[0]);
    assert("none"@[0] != "zlib"@[0]);
    assert("none"@[0] != "udbz"@[0]);
    assert("none"@[0] != "ulfo"@[0]);
    assert("none"@[0] != "ulmo"@[0]);
    assert("none"@[0] != "lzma"@[0]);
    assert("udzo"@[2] != "udbz"@[2]);
    assert("udzo"@[1] != "ulfo"@[1]);
    assert("udzo"@[1] != "ulmo"@[1]);
    assert("udzo"@[0] != "lzma"@[0]);
    assert("zlib"@[0] != "udbz"@[0]);
    assert("zlib"@[0] != "ulfo"@[0]);
    assert("zlib"@[0] != "ulmo"@[0]);
    assert("zlib"@[0] != "lzma"@[0]);
    assert("udbz"@[1] != "ulfo"@[1]);
    assert("udbz"@[1] != "ulmo"@[1]);
    assert("udbz"@[0] != "lzma"@[0]);
    assert("bzip2"@[0] != "lzfse"@[0]);
    assert("bzip2"@[0] != "lzma2"@[0]);
    assert("ulfo"@[2] != "ulmo"@[2]);
    assert("ulfo"@[0] != "lzma"@[0]);
    assert("lzfse"@[2] != "lzma2"@[2]);
    assert("raw"@.len() == 3);
    assert("none"@.len() == 4);
    assert("udzo"@.len() == 4);
    assert("zlib"@.len() == 4);
    assert("deflate"@.len() == 7);
    assert("udbz"@.len() == 4);
    assert("bzip2"@.len() == 5);
    assert("bz2"@.len() == 3);
    assert("ulfo"@.len() == 4);
    assert("lzfse"@.len() == 5);
    assert("ulmo"@.len() == 4);
    assert("xz"@.len() == 2);
    assert("lzma"@.len() == 4);
    assert("lzma2"@.len() == 5);
}

/// HFS+ goes by "hfs+" and "hfs", APFS by "apfs", in any case, and neither by any
/// other name.
pub proof fn law_filesystems_go_by_their_names(s: Seq<char>)
    ensures
        ({
            let name = text::lowered(s);
            &&& filesystem_named(name) == Some(FilesystemKind::HfsPlus) <==> (name == "hfs+"@
                || name == "hfs"@)
            &&& filesystem_named(name) == Some(FilesystemKind::Apfs) <==> name == "apfs"@
        }),
{
    reveal_strlit("hfs+");
    reveal_strlit("hfs");
    reveal_strlit("apfs");
    assert("apfs"@[0] != "hfs+"@[0]);
    assert("hfs"@.len() == 3);
    assert("apfs"@.len() == 4);
}

/// A text that is no pair is refused for having no or more than one comma, or
/// for the first of its two parts that is no number.
pub proof fn law_pair_is_refused_with_a_reason(s: Seq<char>)
    ensures
        match pair(s) {
            Ok(_) => true,
            Err(Problem::NotAPair(t)) => t == s && forall|a: Seq<char>, b: Seq<char>|
                !is_two(s, a, b),
            Err(Problem::InvalidX(t)) => exists|a: Seq<char>, b: Seq<char>| #[trigger]
                is_two(s, a, b) && t == text::trimmed(a) && text::number(t) is None,
            Err(Problem::InvalidY(t)) => exists|a: Seq<char>, b: Seq<char>, x: i32|
                #![trigger is_two(s, a, b), writes(a, x)]
                is_two(s, a, b) && writes(a, x) && t == text::trimmed(b) && text::number(t) is None,
            Err(_) => false,
        },
{
    let parts = text::split_on(s, ',', None);
    text::law_pieces_rejoin(s, ',', None);
    if parts.len() == 2 {
        lemma_rejoined_two(parts);
        assert(is_two(s, parts[0], parts[1]));
        if let Some(x) = text::number(text::trimmed(parts[0])) {
            assert(writes(parts[0], x));
        }
    } else {
        assert forall|a: Seq<char>, b: Seq<char>| !is_two(s, a, b) by {
            if is_two(s, a, b) {
                lemma_two(s, a, b, None);
            }
        }
    }
}

/// A text that is no icon is refused for not having two commas, or for the
/// first of its last two parts that is no number.
pub proof fn law_icon_is_refused_with_a_reason(s: Seq<char>)
    ensures
        match placed_icon(s) {
            Ok(_) => true,
            Err(Problem::IconFormat(t)) => t == s && forall|
                a: Seq<char>,
                b: Seq<char>,
                c: Seq<char>,
            |
                !is_three(s, a, b, c),
            Err(Problem::InvalidX(t)) => exists|a: Seq<char>, b: Seq<char>, c: Seq<char>|
             #[trigger]
                is_three(s, a, b, c) && t == text::trimmed(b) && text::number(t) is None,
            Err(Problem::InvalidY(t)) => exists|a: Seq<char>, b: Seq<char>, c: Seq<char>, x: i32|
                #![trigger is_three(s, a, b, c), writes(b, x)]
                is_three(s, a, b, c) && writes(b, x) && t == text::trimmed(c) && text::number(
                    t,
                ) is None,
            Err(_) => false,
        },
{
    let parts = text::split_on(s, ',', None);
    text::law_pieces_rejoin(s, ',', None);
    if parts.len() == 3 {
        lemma_rejoined_three(parts);
        assert(is_three(s, parts[0], parts[1], parts[2]));
        if let Some(x) = text::number(text::trimmed(parts[1])) {
            assert(writes(parts[1], x));
        }
    } else {
        assert forall|a: Seq<char>, b: Seq<char>, c: Seq<char>| !is_three(s, a, b, c) by {
            if is_three(s, a, b, c) {
                lemma_three(s, a, b, c, None);
            }
        }
    }
}

/// A text that is no extra file is refused for having neither two nor four
/// parts, or for the first of its last two parts that is no number.
pub proof fn law_file_is_refused_with_a_reason(s: Seq<char>)
    ensures
        match added_file(s) {
            Ok(_) => true,
            Err(Problem::AddFileFormat(t)) => t == s && (forall|a: Seq<char>, b: Seq<char>|
                !is_two(s, a, b)) && (forall|
                a: Seq<char>,
                b: Seq<char>,
                c: Seq<char>,
                d: Seq<char>,
            |
                !is_four(s, a, b, c, d)),
            Err(Problem::InvalidFileX(t)) => exists|
                a: Seq<char>,
                b: Seq<char>,
                c: Seq<char>,
                d: Seq<char>,
            | #[trigger]
                is_four(s, a, b, c, d) && t == text::trimmed(c) && text::number(t) is None,
            Err(Problem::InvalidFileY(t)) => exists|
                a: Seq<char>,
                b: Seq<char>,
                c: Seq<char>,
                d: Seq<char>,
                x: i32,
            |
                #![trigger is_four(s, a, b, c, d), writes(c, x)]
                is_four(s, a, b, c, d) && writes(c, x) && t == text::trimmed(d) && text::number(
                    t,
                ) is None,
            Err(_) => false,
        },
{
    let parts = text::split_on(s, ',', Some(4));
    text::law_pieces_rejoin(s, ',', Some(4));
    assert forall|a: Seq<char>, b: Seq<char>| is_two(s, a, b) implies parts.len() == 2 by {
        lemma_two(s, a, b, Some(4));
    }
    assert forall|a: Seq<char>, b: Seq<char>, c: Seq<char>, d: Seq<char>|
        is_four(s, a, b, c, d) implies parts.len() == 4 by {
        lemma_four(s, a, b, c, d);
    }
    if parts.len() == 4 {
        lemma_rejoined_four(parts);
        assert(is_four(s, parts[0], parts[1], parts[2], parts[3]));
        if let Some(x) = text::number(text::trimmed(parts[2])) {
            assert(writes(parts[2], x));
        }
    }
}

proof fn lemma_icon_problem(d: Decorations, icons: Seq<Seq<char>>) -> (i: int)
    requires
        with_icons(d, icons) is Err,
    ensures
        0 <= i < icons.len(),
        placed_icon(icons[i]) == Err::<(Seq<char>, i32, i32), Problem>(
            with_icons(d, icons)->Err_0,
        ),
    decreases icons.len(),
{
    let others = icons.drop_last();
    if with_icons(d, others) is Err {
        let i = lemma_icon_problem(d, others);
        assert(others[i] == icons[i]);
        i
    } else {
        icons.len() - 1
    }
}

proof fn lemma_file_problem(d: Decorations, files: Seq<ExtraFile>) -> (i: int)
    requires
        with_files(d, files) is Err,
    ensures
        0 <= i < files.len(),
        match added_file(files[i].spec_text@) {
            Err(e) => e == with_files(d, files)->Err_0,
            Ok(added) => !files[i].exists && with_files(d, files)->Err_0
                == Problem::ExtraFileNotFound(added.source),
        },
    decreases files.len(),
{
    let others = files.drop_last();
    if with_files(d, others) is Err {
        let i = lemma_file_problem(d, others);
        assert(others[i] == files[i]);
        i
    } else {
        files.len() - 1
    }
}

/// Whether all values for icons are good.
pub open spec fn icons_are_good(args: DecorationArgs) -> bool {
    forall|i: int| 0 <= i < args.icons@.len() ==> icon_is_good((#[trigger] args.icons@[i])@)
}

/// Whether `s` is one of the values for icons.
pub open spec fn is_icon_value(args: DecorationArgs, s: Seq<char>) -> bool {
    exists|i: int| 0 <= i < args.icons@.len() && (#[trigger] args.icons@[i])@ == s
}

/// Whether `s` is one of the values for extra files.
pub open spec fn is_file_value(args: DecorationArgs, s: Seq<char>) -> bool {
    exists|i: int|
        0 <= i < args.add_files@.len() && (#[trigger] args.add_files@[i]).spec_text@ == s
}

/// Whether one of the extra files has this source and does not exist.
pub open spec fn is_missing_source(args: DecorationArgs, source: Seq<char>) -> bool {
    exists|i: int, target: Seq<char>, position: Option<(i32, i32)>|
        0 <= i < args.add_files@.len() && !args.add_files@[i].exists && #[trigger] writes_file(
            args.add_files@[i].spec_text@,
            source,
            target,
            position,
        )
}

/// Where the options are refused, the problem is one that they have: a file that
/// is not there, a text size that is out of range, or a value that does not
/// have its form. Drop links are looked at first, then pictures, the window,
/// icons, the license and extra files, so what comes before the problem is
/// good.
pub proof fn law_problems_are_real(args: DecorationArgs)
    requires
        decorations_for(args) is Err,
    ensures
        ({
            let links = link_is_good(args.app_drop_link) && link_is_good(args.ql_drop_link);
            let pictures = links && (args.background is Some ==> args.background->0.exists
                && args.background->0.file_name is Some) && host_is_good(args.volume_icon);
            let window = pictures && pair_is_good(args.window_pos) && pair_is_good(
                args.window_size,
            );
            let sizes = window && (args.text_size is Some ==> 10 <= args.text_size->0 <= 16);
            let icons = sizes && icons_are_good(args);
            let license = icons && host_is_good(args.eula);
            match decorations_for(args)->Err_0 {
                Problem::BackgroundNotFound => links && args.background is Some
                    && !args.background->0.exists,
                Problem::BackgroundWithoutName => links && args.background is Some
                    && args.background->0.exists && args.background->0.file_name is None,
                Problem::VolumeIconNotFound => links && args.volume_icon is Some
                    && !args.volume_icon->0.exists,
                Problem::TextSize(n) => window && args.text_size == Some(n) && !(10 <= n <= 16),
                Problem::IconFormat(s) => sizes && is_icon_value(args, s),
                Problem::EulaNotFound => icons && args.eula is Some && !args.eula->0.exists,
                Problem::AddFileFormat(s) => license && is_file_value(args, s),
                Problem::ExtraFileNotFound(source) => license && is_missing_source(args, source),
                Problem::InvalidFileX(t) => license && text::number(t) is None,
                Problem::InvalidFileY(t) => license && text::number(t) is None,
                Problem::InvalidX(t) => text::number(t) is None,
                Problem::InvalidY(t) => text::number(t) is None,
                Problem::NotAPair(s) => option_view(args.app_drop_link) == Some(s) || option_view(
                    args.ql_drop_link,
                ) == Some(s) || option_view(args.window_pos) == Some(s) || option_view(
                    args.window_size,
                ) == Some(s),
                _ => false,
            }
        }),
{
    let app = option_view(args.app_drop_link);
    let ql = option_view(args.ql_drop_link);
    let pos = option_view(args.window_pos);
    let size = option_view(args.window_size);
    let icons = text::views(args.icons@);
    let hidden = text::views(args.hide_extensions@);
    let d1 = with_links(Decorations::none(), app, ql)->Ok_0;
    let d2 = with_pictures(d1, args.background, args.volume_icon)->Ok_0;
    let d3 = with_window(d2, pos, size, args.icon_size, args.text_size)->Ok_0;
    let d4 = with_icons(d3, icons)->Ok_0;
    let d5 = with_license(d4, hidden, args.eula)->Ok_0;
    if let Some(value) = args.app_drop_link {
        lemma_link_is_good(value@, (490, 190));
        law_pair_is_refused_with_a_reason(value@);
    }
    if let Some(value) = args.ql_drop_link {
        lemma_link_is_good(value@, (490, 390));
        law_pair_is_refused_with_a_reason(value@);
    }
    if let Some(value) = args.window_pos {
        lemma_pair_is_good(value@);
        law_pair_is_refused_with_a_reason(value@);
    }
    if let Some(value) = args.window_size {
        lemma_pair_is_good(value@);
        law_pair_is_refused_with_a_reason(value@);
    }
    lemma_icons_are_good(d3, icons);
    if with_icons(d3, icons) is Err {
        let i = lemma_icon_problem(d3, icons);
        law_icon_is_refused_with_a_reason(icons[i]);
        assert(icons[i] == args.icons@[i]@);
        assert(is_icon_value(args, icons[i]));
    } else {
        assert forall|i: int| 0 <= i < args.icons@.len() implies icon_is_good(
            (#[trigger] args.icons@[i])@,
        ) by {
            assert(icons[i] == args.icons@[i]@);
        }
        if with_files(d5, args.add_files@) is Err {
            let i = lemma_file_problem(d5, args.add_files@);
            let value = args.add_files@[i].spec_text@;
            law_file_is_refused_with_a_reason(value);
            assert(is_file_value(args, value));
            if let Ok(added) = added_file(value) {
                law_file_is_what_is_written(value, added.source, added.target, added.position);
                assert(writes_file(
                    args.add_files@[i].spec_text@,
                    added.source,
                    added.target,
                    added.position,
                ));
                assert(!args.add_files@[i].exists);
                assert(is_missing_source(args, added.source));
            }
        }
    }
}

} // verus!

//! What is added to a disk image for the macOS drag-install experience.
use std::path::PathBuf;
use vstd::prelude::*;

verus! {

/// A host path. The library carries it from the command line to whoever reads
/// the file, and never looks inside.
#[verifier::external_type_specification]
#[verifier::external_body]
pub struct ExPathBuf(std::path::PathBuf);

/// What a [`DmgDecorations`] holds.
pub struct Decorations {
    pub app_drop_link: Option<(i32, i32)>,
    pub ql_drop_link: Option<(i32, i32)>,
    pub background: Option<(PathBuf, Seq<char>)>,
    pub volicon: Option<PathBuf>,
    pub extra_files: Seq<(PathBuf, Seq<char>)>,
    pub window_pos: Option<(i32, i32)>,
    pub window_size: Option<(i32, i32)>,
    pub icon_size: Option<u32>,
    pub text_size: Option<u32>,
    pub icon_positions: Seq<(Seq<char>, i32, i32)>,
    pub hide_extensions: Seq<Seq<char>>,
    pub eula: Option<PathBuf>,
}

impl Decorations {
    /// No decoration at all.
    pub open spec fn none() -> Decorations {
        Decorations {
            app_drop_link: None,
            ql_drop_link: None,
            background: None,
            volicon: None,
            extra_files: Seq::empty(),
            window_pos: None,
            window_size: None,
            icon_size: None,
            text_size: None,
            icon_positions: Seq::empty(),
            hide_extensions: Seq::empty(),
            eula: None,
        }
    }

    /// Whether something here is kept in a `.DS_Store` file: the window, the
    /// icons, the background or a drop link.
    pub open spec fn needs_ds_store(self) -> bool {
        ||| self.window_pos is Some
        ||| self.window_size is Some
        ||| self.icon_size is Some
        ||| self.text_size is Some
        ||| self.icon_positions.len() > 0
        ||| self.hide_extensions.len() > 0
        ||| self.background is Some
        ||| self.app_drop_link is Some
        ||| self.ql_drop_link is Some
    }
}

/// The names and places in a list of icon positions.
pub open spec fn positions(list: Seq<(String, i32, i32)>) -> Seq<(Seq<char>, i32, i32)> {
    Seq::new(list.len(), |i: int| (list[i].0@, list[i].1, list[i].2))
}

/// The host paths and targets in a list of extra files.
pub open spec fn extras(list: Seq<(PathBuf, String)>) -> Seq<(PathBuf, Seq<char>)> {
    Seq::new(list.len(), |i: int| (list[i].0, list[i].1@))
}

/// Decorations added to a DMG for the macOS drag-install experience.
///
/// Construct via [`DmgDecorations::builder()`].
#[derive(Clone, Debug)]
pub struct DmgDecorations {
    /// Create an `/Applications` symlink at the given icon position.
    app_drop_link: Option<(i32, i32)>,
    /// Create a `/QuickLook` symlink at the given icon position.
    ql_drop_link: Option<(i32, i32)>,
    /// Background image to embed at `/.background/<filename>`.
    background: Option<(PathBuf, String)>,
    /// Volume icon (`.icns`) to embed at `/.VolumeIcon.icns`.
    volicon: Option<PathBuf>,
    /// Extra files to add: (host_path, target_path_in_dmg).
    extra_files: Vec<(PathBuf, String)>,
    /// Window position (x, y) for the Finder window.
    window_pos: Option<(i32, i32)>,
    /// Window size (width, height) for the Finder window.
    window_size: Option<(i32, i32)>,
    /// Icon size in pixels.
    icon_size: Option<u32>,
    /// Text size in points (icon label font size).
    text_size: Option<u32>,
    /// Icon positions for specific entries: (name, x, y).
    icon_positions: Vec<(String, i32, i32)>,
    /// File names whose extension should be hidden in Finder.
    hide_extensions: Vec<String>,
    /// Optional EULA file (plain text or RTF) to embed as DMG license resources.
    eula: Option<PathBuf>,
}

impl View for DmgDecorations {
    type V = Decorations;

    closed spec fn view(&self) -> Decorations {
        Decorations {
            app_drop_link: self.app_drop_link,
            ql_drop_link: self.ql_drop_link,
            background: match self.background {
                Some(b) => Some((b.0, b.1@)),
                None => None,
            },
            volicon: self.volicon,
            extra_files: extras(self.extra_files@),
            window_pos: self.window_pos,
            window_size: self.window_size,
            icon_size: self.icon_size,
            text_size: self.text_size,
            icon_positions: positions(self.icon_positions@),
            hide_extensions: crate::text::views(self.hide_extensions@),
            eula: self.eula,
        }
    }
}

impl Default for DmgDecorations {
    fn default() -> (r: Self)
        ensures
            r@ == Decorations::none(),
    {
        let r = DmgDecorations {
            app_drop_link: None,
            ql_drop_link: None,
            background: None,
            volicon: None,
            extra_files: Vec::new(),
            window_pos: None,
            window_size: None,
            icon_size: None,
            text_size: None,
            icon_positions: Vec::new(),
            hide_extensions: Vec::new(),
            eula: None,
        };
        assert(r@.extra_files =~= Seq::empty());
        assert(r@.icon_positions =~= Seq::empty());
        assert(r@.hide_extensions =~= Seq::empty());
        r
    }
}

impl DmgDecorations {
    /// Create a new builder for configuring DMG decorations.
    pub fn builder() -> (r: DmgDecorationsBuilder)
        ensures
            r@ == Decorations::none(),
    {
        DmgDecorationsBuilder::default()
    }

    pub fn app_drop_link(&self) -> (r: Option<(i32, i32)>)
        ensures
            r == self@.app_drop_link,
    {
        self.app_drop_link
    }

    pub fn ql_drop_link(&self) -> (r: Option<(i32, i32)>)
        ensures
            r == self@.ql_drop_link,
    {
        self.ql_drop_link
    }

    pub fn background(&self) -> (r: Option<&(PathBuf, String)>)
        ensures
            match r {
                Some(b) => self@.background == Some((b.0, b.1@)),
                None => self@.background is None,
            },
    {
        match &self.background {
            Some(b) => Some(b),
            None => None,
        }
    }

    pub fn volicon(&self) -> (r: Option<&PathBuf>)
        ensures
            match r {
                Some(p) => self@.volicon == Some(*p),
                None => self@.volicon is None,
            },
    {
        match &self.volicon {
            Some(p) => Some(p),
            None => None,
        }
    }

    pub fn extra_files(&self) -> (r: &[(PathBuf, String)])
        ensures
            extras(r@) == self@.extra_files,
    {
        self.extra_files.as_slice()
    }

    pub fn window_pos(&self) -> (r: Option<(i32, i32)>)
        ensures
            r == self@.window_pos,
    {
        self.window_pos
    }

    pub fn window_size(&self) -> (r: Option<(i32, i32)>)
        ensures
            r == self@.window_size,
    {
        self.window_size
    }

    pub fn icon_size(&self) -> (r: Option<u32>)
        ensures
            r == self@.icon_size,
    {
        self.icon_size
    }

    pub fn text_size(&self) -> (r: Option<u32>)
        ensures
            r == self@.text_size,
    {
        self.text_size
    }

    pub fn icon_positions(&self) -> (r: &[(String, i32, i32)])
        ensures
            positions(r@) == self@.icon_positions,
    {
        self.icon_positions.as_slice()
    }

    pub fn hide_extensions(&self) -> (r: &[String])
        ensures
            crate::text::views(r@) == self@.hide_extensions,
    {
        self.hide_extensions.as_slice()
    }

    /// The license file, if there is one.
    pub fn eula(&self) -> (r: Option<&PathBuf>)
        ensures
            match r {
                Some(p) => self@.eula == Some(*p),
                None => self@.eula is None,
            },
    {
        match &self.eula {
            Some(p) => Some(p),
            None => None,
        }
    }

    /// Whether any decoration requires generating a `.DS_Store` file.
    pub fn needs_ds_store(&self) -> (r: bool)
        ensures
            r == self@.needs_ds_store(),
    {
        self.window_pos.is_some() || self.window_size.is_some() || self.icon_size.is_some()
            || self.text_size.is_some() || self.icon_positions.len() > 0
            || self.hide_extensions.len() > 0 || self.background.is_some()
            || self.app_drop_link.is_some() || self.ql_drop_link.is_some()
    }
}

/// Builder for [`DmgDecorations`].
#[derive(Clone, Debug)]
pub struct DmgDecorationsBuilder {
    inner: DmgDecorations,
}

impl View for DmgDecorationsBuilder {
    type V = Decorations;

    closed spec fn view(&self) -> Decorations {
        self.inner@
    }
}

impl Default for DmgDecorationsBuilder {
    fn default() -> (r: Self)
        ensures
            r@ == Decorations::none(),
    {
        DmgDecorationsBuilder { inner: DmgDecorations::default() }
    }
}

impl DmgDecorationsBuilder {
    /// Create an `/Applications` symlink at the given icon position.
    pub fn app_drop_link(self, pos: (i32, i32)) -> (r: Self)
        ensures
            r@ == (Decorations { app_drop_link: Some(pos), ..self@ }),
    {
        let mut r = self;
        r.inner.app_drop_link = Some(pos);
        r
    }

    /// Create a `/QuickLook` symlink at the given icon position.
    pub fn ql_drop_link(self, pos: (i32, i32)) -> (r: Self)
        ensures
            r@ == (Decorations { ql_drop_link: Some(pos), ..self@ }),
    {
        let mut r = self;
        r.inner.ql_drop_link = Some(pos);
        r
    }

    /// Embed a background image from `src` as `/.background/<filename>`.
    pub fn background(self, src: PathBuf, filename: String) -> (r: Self)
        ensures
            r@ == (Decorations { background: Some((src, filename@)), ..self@ }),
    {
        let mut r = self;
        r.inner.background = Some((src, filename));
        r
    }

    /// Embed a volume icon (`.icns`).
    pub fn volicon(self, src: PathBuf) -> (r: Self)
        ensures
            r@ == (Decorations { volicon: Some(src), ..self@ }),
    {
        let mut r = self;
        r.inner.volicon = Some(src);
        r
    }

    /// Add an extra file from `src` to `target_path` in the DMG.
    pub fn extra_file(self, src: PathBuf, target: String) -> (r: Self)
        ensures
            r@ == (Decorations { extra_files: self@.extra_files.push((src, target@)), ..self@ }),
    {
        let mut r = self;
        let ghost pair = (src, target@);
        r.inner.extra_files.push((src, target));
        assert(r@.extra_files =~= self@.extra_files.push(pair));
        r
    }

    /// Set the Finder window position.
    pub fn window_pos(self, pos: (i32, i32)) -> (r: Self)
        ensures
            r@ == (Decorations { window_pos: Some(pos), ..self@ }),
    {
        let mut r = self;
        r.inner.window_pos = Some(pos);
        r
    }

    /// Set the Finder window size.
    pub fn window_size(self, size: (i32, i32)) -> (r: Self)
        ensures
            r@ == (Decorations { window_size: Some(size), ..self@ }),
    {
        let mut r = self;
        r.inner.window_size = Some(size);
        r
    }

    /// Set the icon size in pixels.
    pub fn icon_size(self, size: u32) -> (r: Self)
        ensures
            r@ == (Decorations { icon_size: Some(size), ..self@ }),
    {
        let mut r = self;
        r.inner.icon_size = Some(size);
        r
    }

    /// Set the icon label text size in points.
    pub fn text_size(self, size: u32) -> (r: Self)
        ensures
            r@ == (Decorations { text_size: Some(size), ..self@ }),
    {
        let mut r = self;
        r.inner.text_size = Some(size);
        r
    }

    /// Add an icon position for a named entry.
    pub fn icon_position(self, name: String, x: i32, y: i32) -> (r: Self)
        ensures
            r@ == (Decorations {
                icon_positions: self@.icon_positions.push((name@, x, y)),
                ..self@
            }),
    {
        let mut r = self;
        let ghost place = (name@, x, y);
        r.inner.icon_positions.push((name, x, y));
        assert(r@.icon_positions =~= self@.icon_positions.push(place));
        r
    }

    /// Mark a file name's extension as hidden in Finder.
    pub fn hide_extension(self, name: String) -> (r: Self)
        ensures
            r@ == (Decorations { hide_extensions: self@.hide_extensions.push(name@), ..self@ }),
    {
        let mut r = self;
        let ghost shown = name@;
        r.inner.hide_extensions.push(name);
        assert(r@.hide_extensions =~= self@.hide_extensions.push(shown));
        r
    }

    /// Attach an EULA file (plain text or RTF) as DMG license resources.
    pub fn eula(self, path: PathBuf) -> (r: Self)
        ensures
            r@ == (Decorations { eula: Some(path), ..self@ }),
    {
        let mut r = self;
        r.inner.eula = Some(path);
        r
    }

    /// Build the [`DmgDecorations`].
    pub fn build(self) -> (r: DmgDecorations)
        ensures
            r@ == self@,
    {
        self.inner
    }
}

/// A Finder layout is needed for a window, for sizes, for places of icons, for
/// hidden extensions, for a background and for drop links; neither the volume
/// icon nor extra files nor a license call for one.
pub proof fn law_layout_is_needed_for_what_it_holds(d: Decorations)
    ensures
        d.window_pos is Some ==> d.needs_ds_store(),
        d.window_size is Some ==> d.needs_ds_store(),
        d.icon_size is Some ==> d.needs_ds_store(),
        d.text_size is Some ==> d.needs_ds_store(),
        d.icon_positions.len() > 0 ==> d.needs_ds_store(),
        d.hide_extensions.len() > 0 ==> d.needs_ds_store(),
        d.background is Some ==> d.needs_ds_store(),
        d.app_drop_link is Some ==> d.needs_ds_store(),
        d.ql_drop_link is Some ==> d.needs_ds_store(),
        !(Decorations {
            volicon: d.volicon,
            extra_files: d.extra_files,
            eula: d.eula,
            ..Decorations::none()
        }).needs_ds_store(),
{
}

} // verus!

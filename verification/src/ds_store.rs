//! `.DS_Store` generator for the macOS Finder window layout: where the window
//! is, how icons show and where they stand.
use crate::bud1;
use crate::bud1::{Bud1Record, Record, LEAF_LIMIT};
use crate::bytes;
use crate::decorations;
use crate::decorations::{Decorations, DmgDecorations};
use crate::plist_blob;
use crate::plist_blob::{PlistScalar, PlistValue};
use crate::text;
use vstd::prelude::*;

verus! {

broadcast use vstd::string::group_string_axioms;

// ---------------------------------------------------------------------------
// Blobs
// ---------------------------------------------------------------------------

/// Why a `.DS_Store` file could not be generated.
#[derive(Debug)]
pub enum DsStoreError {
    /// The property list encoder reported an error.
    Plist,
    /// The records take more room than one leaf has.
    TooLarge,
}

/// `{{x, y}, {w, h}}`, the way window bounds are written.
pub open spec fn bounds_text(x: int, y: int, w: int, h: int) -> Seq<char> {
    "{{"@ + text::decimal(x) + ", "@ + text::decimal(y) + "}, {"@ + text::decimal(w) + ", "@
        + text::decimal(h) + "}}"@
}

/// What the `bwsp` property list holds: how the window shows.
pub open spec fn bwsp_entries(x: int, y: int, w: int, h: int) -> Seq<(Seq<char>, PlistScalar)> {
    seq![
        ("ShowStatusBar"@, PlistScalar::Boolean(false)),
        ("ShowToolbar"@, PlistScalar::Boolean(false)),
        ("ShowTabView"@, PlistScalar::Boolean(false)),
        ("ContainerShowSidebar"@, PlistScalar::Boolean(true)),
        ("WindowBounds"@, PlistScalar::Text(bounds_text(x, y, w, h))),
        ("ShowSidebar"@, PlistScalar::Boolean(true)),
    ]
}

/// What the `icvp` property list holds: how icons show. Type 2 is a background
/// picture, type 0 the default background.
pub open spec fn icvp_entries(icon_size: u32, text_size: u32, background: bool) -> Seq<
    (Seq<char>, PlistScalar),
> {
    seq![
        ("backgroundColorBlue"@, PlistScalar::Real(1)),
        ("showIconPreview"@, PlistScalar::Boolean(true)),
        ("textSize"@, PlistScalar::Real(text_size)),
        ("backgroundColorRed"@, PlistScalar::Real(1)),
        (
            "backgroundType"@,
            PlistScalar::Integer(
                if background {
                    2
                } else {
                    0
                },
            ),
        ),
        ("backgroundColorGreen"@, PlistScalar::Real(1)),
        ("gridOffsetX"@, PlistScalar::Real(0)),
        ("gridOffsetY"@, PlistScalar::Real(0)),
        ("showItemInfo"@, PlistScalar::Boolean(false)),
        ("viewOptionsVersion"@, PlistScalar::Integer(1)),
        ("arrangeBy"@, PlistScalar::Text("none"@)),
        ("labelOnBottom"@, PlistScalar::Boolean(true)),
        ("iconSize"@, PlistScalar::Real(icon_size)),
        ("gridSpacing"@, PlistScalar::Real(100)),
    ]
}

proof fn lemma_bwsp_keys(x: int, y: int, w: int, h: int)
    ensures
        plist_blob::keys_differ(bwsp_entries(x, y, w, h)),
{
    reveal_strlit("ShowStatusBar");
    assert("ShowStatusBar"@.len() == 13);
    reveal_strlit("ShowToolbar");
    assert("ShowToolbar"@.len() == 11);
    reveal_strlit("ShowTabView");
    assert("ShowTabView"@.len() == 11);
    reveal_strlit("ContainerShowSidebar");
    assert("ContainerShowSidebar"@.len() == 20);
    reveal_strlit("WindowBounds");
    assert("WindowBounds"@.len() == 12);
    reveal_strlit("ShowSidebar");
    assert("ShowSidebar"@.len() == 11);
    assert("ShowToolbar"@[5] != "ShowTabView"@[5]);
    assert("ShowToolbar"@[4] != "ShowSidebar"@[4]);
    assert("ShowTabView"@[4] != "ShowSidebar"@[4]);
    let list = bwsp_entries(x, y, w, h);
    assert forall|i: int, j: int|
        #![trigger list[i], list[j]]
        0 <= i < j < list.len() implies list[i].0 != list[j].0 by {
        assert(i == 0 || i == 1 || i == 2 || i == 3 || i == 4);
        assert(j == 1 || j == 2 || j == 3 || j == 4 || j == 5);
    }
}

proof fn lemma_icvp_keys(icon_size: u32, text_size: u32, background: bool)
    ensures
        plist_blob::keys_differ(icvp_entries(icon_size, text_size, background)),
{
    reveal_strlit("backgroundColorBlue");
    assert("backgroundColorBlue"@.len() == 19);
    reveal_strlit("showIconPreview");
    assert("showIconPreview"@.len() == 15);
    reveal_strlit("textSize");
    assert("textSize"@.len() == 8);
    reveal_strlit("backgroundColorRed");
    assert("backgroundColorRed"@.len() == 18);
    reveal_strlit("backgroundType");
    assert("backgroundType"@.len() == 14);
    reveal_strlit("backgroundColorGreen");
    assert("backgroundColorGreen"@.len() == 20);
    reveal_strlit("gridOffsetX");
    assert("gridOffsetX"@.len() == 11);
    reveal_strlit("gridOffsetY");
    assert("gridOffsetY"@.len() == 11);
    reveal_strlit("showItemInfo");
    assert("showItemInfo"@.len() == 12);
    reveal_strlit("viewOptionsVersion");
    assert("viewOptionsVersion"@.len() == 18);
    reveal_strlit("arrangeBy");
    assert("arrangeBy"@.len() == 9);
    reveal_strlit("labelOnBottom");
    assert("labelOnBottom"@.len() == 13);
    reveal_strlit("iconSize");
    assert("iconSize"@.len() == 8);
    reveal_strlit("gridSpacing");
    assert("gridSpacing"@.len() == 11);
    assert("textSize"@[0] != "iconSize"@[0]);
    assert("backgroundColorRed"@[0] != "viewOptionsVersion"@[0]);
    assert("gridOffsetX"@[10] != "gridOffsetY"@[10]);
    assert("gridOffsetX"@[4] != "gridSpacing"@[4]);
    assert("gridOffsetY"@[4] != "gridSpacing"@[4]);
    let list = icvp_entries(icon_size, text_size, background);
    assert forall|i: int, j: int|
        #![trigger list[i], list[j]]
        0 <= i < j < list.len() implies list[i].0 != list[j].0 by {
        assert(i == 0 || i == 1 || i == 2 || i == 3 || i == 4 || i == 5 || i == 6 || i == 7 || i == 8 || i == 9 || i == 10 || i == 11 || i == 12);
        assert(j == 1 || j == 2 || j == 3 || j == 4 || j == 5 || j == 6 || j == 7 || j == 8 || j == 9 || j == 10 || j == 11 || j == 12 || j == 13);
    }
}

/// The place of an icon: x, y and the mark of positioned items.
pub open spec fn iloc(x: i32, y: i32) -> Seq<u8> {
    bytes::be32(bytes::complement32(x)) + bytes::be32(bytes::complement32(y)) + bytes::be32(
        0xffff_ffff,
    ) + bytes::be32(0xffff_0000)
}

/// The bytes of the `bwsp` record.
pub open spec fn bwsp(pos: (i32, i32), size: (i32, i32)) -> Seq<u8> {
    plist_blob::binary_plist(
        bwsp_entries(pos.0 as int, pos.1 as int, size.0 as int, size.1 as int),
    )
}

/// The bytes of the `icvp` record.
pub open spec fn icvp(icon_size: u32, text_size: u32, background: bool) -> Seq<u8> {
    plist_blob::binary_plist(icvp_entries(icon_size, text_size, background))
}

/// The window bounds as text.
pub fn window_bounds(x: i32, y: i32, w: i32, h: i32) -> (r: String)
    ensures
        r@ == bounds_text(x as int, y as int, w as int, h as int),
{
    let mut r: String = "{{".to_owned();
    r.append(text::decimal_text(x).as_str());
    r.append(", ");
    r.append(text::decimal_text(y).as_str());
    r.append("}, {");
    r.append(text::decimal_text(w).as_str());
    r.append(", ");
    r.append(text::decimal_text(h).as_str());
    r.append("}}");
    r
}

/// Encodes how the window shows.
pub fn build_bwsp_blob(pos_x: i32, pos_y: i32, size_w: i32, size_h: i32) -> (r: Result<
    Vec<u8>,
    DsStoreError,
>)
    ensures
        r is Ok,
        r->Ok_0@ == bwsp((pos_x, pos_y), (size_w, size_h)),
{
    let bounds = window_bounds(pos_x, pos_y, size_w, size_h);
    let list: [(&'static str, PlistValue); 6] = [
        ("ShowStatusBar", PlistValue::Boolean(false)),
        ("ShowToolbar", PlistValue::Boolean(false)),
        ("ShowTabView", PlistValue::Boolean(false)),
        ("ContainerShowSidebar", PlistValue::Boolean(true)),
        ("WindowBounds", PlistValue::Text(bounds)),
        ("ShowSidebar", PlistValue::Boolean(true)),
    ];
    assert(plist_blob::listed(list@) =~= bwsp_entries(
        pos_x as int,
        pos_y as int,
        size_w as int,
        size_h as int,
    ));
    proof {
        lemma_bwsp_keys(pos_x as int, pos_y as int, size_w as int, size_h as int);
    }
    match plist_blob::encode(list.as_slice()) {
        Ok(encoded) => Ok(encoded),
        Err(_) => Err(DsStoreError::Plist),
    }
}

/// Encodes how icons show.
pub fn build_icvp_blob(icon_size: u32, text_size: u32, background_path: Option<&str>) -> (r: Result<
    Vec<u8>,
    DsStoreError,
>)
    ensures
        r is Ok,
        r->Ok_0@ == icvp(icon_size, text_size, background_path is Some),
{
    let bg_type: i64 = if background_path.is_some() {
        2
    } else {
        0
    };
    let list: [(&'static str, PlistValue); 14] = [
        ("backgroundColorBlue", PlistValue::Real(1)),
        ("showIconPreview", PlistValue::Boolean(true)),
        ("textSize", PlistValue::Real(text_size)),
        ("backgroundColorRed", PlistValue::Real(1)),
        ("backgroundType", PlistValue::Integer(bg_type)),
        ("backgroundColorGreen", PlistValue::Real(1)),
        ("gridOffsetX", PlistValue::Real(0)),
        ("gridOffsetY", PlistValue::Real(0)),
        ("showItemInfo", PlistValue::Boolean(false)),
        ("viewOptionsVersion", PlistValue::Integer(1)),
        ("arrangeBy", PlistValue::Text("none".to_owned())),
        ("labelOnBottom", PlistValue::Boolean(true)),
        ("iconSize", PlistValue::Real(icon_size)),
        ("gridSpacing", PlistValue::Real(100)),
    ];
    assert(plist_blob::listed(list@) =~= icvp_entries(
        icon_size,
        text_size,
        background_path is Some,
    ));
    proof {
        lemma_icvp_keys(icon_size, text_size, background_path is Some);
    }
    match plist_blob::encode(list.as_slice()) {
        Ok(encoded) => Ok(encoded),
        Err(_) => Err(DsStoreError::Plist),
    }
}

/// Encodes the place of an icon.
pub fn build_iloc_blob(x: i32, y: i32) -> (r: Vec<u8>)
    ensures
        r@ == iloc(x, y),
        r@.len() == 16,
{
    let mut data: Vec<u8> = Vec::new();
    bytes::push_be32(&mut data, bytes::complement(x));
    bytes::push_be32(&mut data, bytes::complement(y));
    bytes::push_be32(&mut data, 0xffff_ffff);
    bytes::push_be32(&mut data, 0xffff_0000);
    assert(data@ =~= iloc(x, y));
    data
}

// ---------------------------------------------------------------------------
// The builder
// ---------------------------------------------------------------------------

/// What a [`DsStoreBuilder`] holds.
pub struct DsStoreSettings {
    pub window_pos: Option<(i32, i32)>,
    pub window_size: Option<(i32, i32)>,
    pub icon_size: Option<u32>,
    pub text_size: Option<u32>,
    pub icon_positions: Seq<(Seq<char>, i32, i32)>,
    pub hide_extensions: Seq<Seq<char>>,
    pub background_path: Option<Seq<char>>,
}

/// `value`, or `default` where there is none.
pub open spec fn or_default<T>(value: Option<T>, default: T) -> T {
    match value {
        Some(v) => v,
        None => default,
    }
}

/// Whether the icon called `name` has a place.
pub open spec fn placed(places: Seq<(Seq<char>, i32, i32)>, name: Seq<char>) -> bool {
    exists|i: int| 0 <= i < places.len() && (#[trigger] places[i]).0 == name
}

/// Whether some icon whose name ends in `suffix` has a place.
pub open spec fn placed_with_suffix(
    places: Seq<(Seq<char>, i32, i32)>,
    suffix: Seq<char>,
) -> bool {
    exists|i: int|
        0 <= i < places.len() && text::ends_with((#[trigger] places[i]).0, suffix)
}

/// `places` with the drop link called `name` at `pos`, where there is such a
/// link and its icon has no place yet.
pub open spec fn with_link(
    places: Seq<(Seq<char>, i32, i32)>,
    name: Seq<char>,
    pos: Option<(i32, i32)>,
) -> Seq<(Seq<char>, i32, i32)> {
    if pos is Some && !placed(places, name) {
        places.push((name, (pos->0).0, (pos->0).1))
    } else {
        places
    }
}

/// The icon positions for `decorations`: the app has a default place unless
/// some app was given one, and the drop links follow.
pub open spec fn decorated_positions(
    decorations: Decorations,
    app_name: Seq<char>,
) -> Seq<(Seq<char>, i32, i32)> {
    let given = decorations.icon_positions;
    let with_app = if placed_with_suffix(given, ".app"@) {
        given
    } else {
        given.push((app_name, 150, 190))
    };
    with_link(
        with_link(with_app, "Applications"@, decorations.app_drop_link),
        "QuickLook"@,
        decorations.ql_drop_link,
    )
}

impl DsStoreSettings {
    /// The settings of a new builder.
    pub open spec fn none() -> DsStoreSettings {
        DsStoreSettings {
            window_pos: None,
            window_size: None,
            icon_size: None,
            text_size: None,
            icon_positions: Seq::empty(),
            hide_extensions: Seq::empty(),
            background_path: None,
        }
    }

    /// These settings after `decorations` were applied to them.
    pub open spec fn decorated(
        self,
        decorations: Decorations,
        app_name: Seq<char>,
    ) -> DsStoreSettings {
        DsStoreSettings {
            window_pos: Some(or_default(decorations.window_pos, (100, 100))),
            window_size: Some(or_default(decorations.window_size, (640, 480))),
            icon_size: Some(or_default(decorations.icon_size, 100)),
            text_size: decorations.text_size,
            icon_positions: decorated_positions(decorations, app_name),
            hide_extensions: decorations.hide_extensions,
            background_path: match decorations.background {
                Some((_, filename)) => Some(".background:"@ + filename),
                None => self.background_path,
            },
        }
    }

    /// The `bwsp` record's bytes under these settings.
    pub open spec fn bwsp(self) -> Seq<u8> {
        bwsp(or_default(self.window_pos, (100, 100)), or_default(self.window_size, (640, 480)))
    }

    /// The `icvp` record's bytes under these settings.
    pub open spec fn icvp(self) -> Seq<u8> {
        icvp(
            or_default(self.icon_size, 100),
            or_default(self.text_size, 16),
            self.background_path is Some,
        )
    }

    /// The records for these settings, given the two encoded property lists:
    /// those of the folder itself, a place for each icon and a mark for each
    /// hidden extension.
    pub open spec fn records(self, bwsp: Seq<u8>, icvp: Seq<u8>) -> Seq<Record> {
        let folder = "."@;
        seq![
            Record {
                name: folder,
                type_code: bud1::code('b', 'w', 's', 'p'),
                sub_type: bud1::blob(),
                data: bwsp,
            },
            Record {
                name: folder,
                type_code: bud1::code('i', 'c', 'v', 'p'),
                sub_type: bud1::blob(),
                data: icvp,
            },
            Record {
                name: folder,
                type_code: bud1::code('v', 'S', 'r', 'n'),
                sub_type: bud1::long(),
                data: bytes::be32(1),
            },
        ] + Seq::new(self.icon_positions.len(), |i: int| place_record(self.icon_positions[i]))
            + Seq::new(self.hide_extensions.len(), |i: int| hidden_record(self.hide_extensions[i]))
    }

    /// The file for these settings.
    pub open spec fn file(self) -> Seq<u8> {
        bud1::bud1_file(self.records(self.bwsp(), self.icvp()))
    }

    /// How large the leaf is under these settings.
    pub open spec fn leaf_size(self) -> nat {
        bud1::leaf(self.records(self.bwsp(), self.icvp())).len()
    }
}

/// The record that places an icon.
pub open spec fn place_record(place: (Seq<char>, i32, i32)) -> Record {
    Record {
        name: place.0,
        type_code: bud1::code('I', 'l', 'o', 'c'),
        sub_type: bud1::blob(),
        data: iloc(place.1, place.2),
    }
}

/// The record that hides an extension.
pub open spec fn hidden_record(name: Seq<char>) -> Record {
    Record {
        name,
        type_code: bud1::code('e', 'x', 't', 'n'),
        sub_type: bud1::boolean(),
        data: seq![1u8],
    }
}

/// Builder for generating `.DS_Store` binary data.
pub struct DsStoreBuilder {
    /// Window position (x, y).
    window_pos: Option<(i32, i32)>,
    /// Window size (width, height).
    window_size: Option<(i32, i32)>,
    /// Icon size in pixels.
    icon_size: Option<u32>,
    /// Text size in points (icon label font size).
    text_size: Option<u32>,
    /// Icon positions: (name, x, y).
    icon_positions: Vec<(String, i32, i32)>,
    /// File names whose extension should be hidden.
    hide_extensions: Vec<String>,
    /// Background image path (relative to volume root).
    background_path: Option<String>,
}

impl View for DsStoreBuilder {
    type V = DsStoreSettings;

    closed spec fn view(&self) -> DsStoreSettings {
        DsStoreSettings {
            window_pos: self.window_pos,
            window_size: self.window_size,
            icon_size: self.icon_size,
            text_size: self.text_size,
            icon_positions: decorations::positions(self.icon_positions@),
            hide_extensions: text::views(self.hide_extensions@),
            background_path: match self.background_path {
                Some(path) => Some(path@),
                None => None,
            },
        }
    }
}

fn copy_positions(places: &[(String, i32, i32)]) -> (r: Vec<(String, i32, i32)>)
    ensures
        decorations::positions(r@) == decorations::positions(places@),
{
    let mut r: Vec<(String, i32, i32)> = Vec::new();
    let mut i: usize = 0;
    while i < places.len()
        invariant
            i <= places@.len(),
            decorations::positions(r@) == decorations::positions(places@).take(i as int),
        decreases places@.len() - i,
    {
        let ghost before = decorations::positions(r@);
        r.push((places[i].0.clone(), places[i].1, places[i].2));
        assert(decorations::positions(r@) =~= before.push(
            decorations::positions(places@)[i as int],
        ));
        i += 1;
        assert(decorations::positions(r@) =~= decorations::positions(places@).take(i as int));
    }
    assert(decorations::positions(r@) =~= decorations::positions(places@));
    r
}

fn copy_names(names: &[String]) -> (r: Vec<String>)
    ensures
        text::views(r@) == text::views(names@),
{
    let mut r: Vec<String> = Vec::new();
    let mut i: usize = 0;
    while i < names.len()
        invariant
            i <= names@.len(),
            text::views(r@) == text::views(names@).take(i as int),
        decreases names@.len() - i,
    {
        let ghost before = text::views(r@);
        r.push(names[i].clone());
        assert(text::views(r@) =~= before.push(text::views(names@)[i as int]));
        i += 1;
        assert(text::views(r@) =~= text::views(names@).take(i as int));
    }
    assert(text::views(r@) =~= text::views(names@));
    r
}

fn has_place(places: &[(String, i32, i32)], name: &str) -> (r: bool)
    ensures
        r == placed(decorations::positions(places@), name@),
{
    let ghost all = decorations::positions(places@);
    let mut i: usize = 0;
    while i < places.len()
        invariant
            i <= places@.len(),
            all == decorations::positions(places@),
            forall|k: int| 0 <= k < i ==> (#[trigger] all[k]).0 != name@,
        decreases places@.len() - i,
    {
        if text::same(places[i].0.as_str(), name) {
            assert(all[i as int].0 == name@);
            return true;
        }
        i += 1;
    }
    false
}

fn has_place_with_suffix(places: &[(String, i32, i32)], suffix: &str) -> (r: bool)
    ensures
        r == placed_with_suffix(decorations::positions(places@), suffix@),
{
    let ghost all = decorations::positions(places@);
    let mut i: usize = 0;
    while i < places.len()
        invariant
            i <= places@.len(),
            all == decorations::positions(places@),
            forall|k: int| 0 <= k < i ==> !text::ends_with((#[trigger] all[k]).0, suffix@),
        decreases places@.len() - i,
    {
        if text::has_suffix(places[i].0.as_str(), suffix) {
            assert(text::ends_with(all[i as int].0, suffix@));
            return true;
        }
        i += 1;
    }
    false
}

fn add_link(places: &mut Vec<(String, i32, i32)>, name: &str, pos: Option<(i32, i32)>)
    ensures
        decorations::positions(final(places)@) == with_link(
            decorations::positions(old(places)@),
            name@,
            pos,
        ),
{
    if let Some((x, y)) = pos {
        if !has_place(places.as_slice(), name) {
            places.push((name.to_owned(), x, y));
            assert(decorations::positions(places@) =~= decorations::positions(old(places)@).push(
                (name@, x, y),
            ));
        }
    }
}

impl DsStoreBuilder {
    /// Create a new builder with default settings.
    pub fn new() -> (r: Self)
        ensures
            r@ == DsStoreSettings::none(),
    {
        let r = DsStoreBuilder {
            window_pos: None,
            window_size: None,
            icon_size: None,
            text_size: None,
            icon_positions: Vec::new(),
            hide_extensions: Vec::new(),
            background_path: None,
        };
        assert(r@.icon_positions =~= Seq::empty());
        assert(r@.hide_extensions =~= Seq::empty());
        r
    }

    /// Apply settings from DmgDecorations.
    pub fn apply_decorations(self, decorations: &DmgDecorations, app_name: &str) -> (r: Self)
        ensures
            r@ == self@.decorated(decorations@, app_name@),
    {
        let mut places = copy_positions(decorations.icon_positions());
        if !has_place_with_suffix(places.as_slice(), ".app") {
            let ghost given = decorations::positions(places@);
            places.push((app_name.to_owned(), 150, 190));
            assert(decorations::positions(places@) =~= given.push((app_name@, 150, 190)));
        }
        add_link(&mut places, "Applications", decorations.app_drop_link());
        add_link(&mut places, "QuickLook", decorations.ql_drop_link());
        let background_path: Option<String> = match decorations.background() {
            Some(b) => Some(text::concat(".background:", b.1.as_str())),
            None => self.background_path,
        };
        let window_pos: (i32, i32) = match decorations.window_pos() {
            Some(pos) => pos,
            None => (100, 100),
        };
        let window_size: (i32, i32) = match decorations.window_size() {
            Some(size) => size,
            None => (640, 480),
        };
        let icon_size: u32 = match decorations.icon_size() {
            Some(size) => size,
            None => 100,
        };
        DsStoreBuilder {
            window_pos: Some(window_pos),
            window_size: Some(window_size),
            icon_size: Some(icon_size),
            text_size: decorations.text_size(),
            icon_positions: places,
            hide_extensions: copy_names(decorations.hide_extensions()),
            background_path,
        }
    }

    /// The encoded window settings.
    fn bwsp_blob(&self) -> (r: Result<Vec<u8>, DsStoreError>)
        ensures
            r is Ok,
            r->Ok_0@ == self@.bwsp(),
    {
        let pos: (i32, i32) = match self.window_pos {
            Some(pos) => pos,
            None => (100, 100),
        };
        let size: (i32, i32) = match self.window_size {
            Some(size) => size,
            None => (640, 480),
        };
        build_bwsp_blob(pos.0, pos.1, size.0, size.1)
    }

    /// The encoded icon settings.
    fn icvp_blob(&self) -> (r: Result<Vec<u8>, DsStoreError>)
        ensures
            r is Ok,
            r->Ok_0@ == self@.icvp(),
    {
        let icon_size: u32 = match self.icon_size {
            Some(size) => size,
            None => 100,
        };
        let text_size: u32 = match self.text_size {
            Some(size) => size,
            None => 16,
        };
        let background: Option<&str> = match &self.background_path {
            Some(path) => Some(path.as_str()),
            None => None,
        };
        build_icvp_blob(icon_size, text_size, background)
    }

    /// The records for these settings, given the two encoded property lists.
    pub fn records(&self, bwsp_blob: Vec<u8>, icvp_blob: Vec<u8>) -> (r: Vec<Bud1Record>)
        ensures
            bud1::records_view(r@) == self@.records(bwsp_blob@, icvp_blob@),
    {
        let ghost all = self@.records(bwsp_blob@, icvp_blob@);
        let mut records: Vec<Bud1Record> = Vec::new();
        let folder = Bud1Record {
            name: ".".to_owned(),
            type_code: ['b' as u8, 'w' as u8, 's' as u8, 'p' as u8],
            sub_type: ['b' as u8, 'l' as u8, 'o' as u8, 'b' as u8],
            data: bwsp_blob,
        };
        assert(folder@.type_code =~= all[0].type_code);
        assert(folder@.sub_type =~= all[0].sub_type);
        records.push(folder);
        let icons = Bud1Record {
            name: ".".to_owned(),
            type_code: ['i' as u8, 'c' as u8, 'v' as u8, 'p' as u8],
            sub_type: ['b' as u8, 'l' as u8, 'o' as u8, 'b' as u8],
            data: icvp_blob,
        };
        assert(icons@.type_code =~= all[1].type_code);
        assert(icons@.sub_type =~= all[1].sub_type);
        records.push(icons);
        let mut one: Vec<u8> = Vec::new();
        bytes::push_be32(&mut one, 1);
        let version = Bud1Record {
            name: ".".to_owned(),
            type_code: ['v' as u8, 'S' as u8, 'r' as u8, 'n' as u8],
            sub_type: ['l' as u8, 'o' as u8, 'n' as u8, 'g' as u8],
            data: one,
        };
        assert(version@.type_code =~= all[2].type_code);
        assert(version@.sub_type =~= all[2].sub_type);
        assert(version@.data =~= all[2].data);
        records.push(version);
        assert(bud1::records_view(records@) =~= all.take(3));
        let mut i: usize = 0;
        while i < self.icon_positions.len()
            invariant
                i <= self.icon_positions@.len(),
                all == self@.records(bwsp_blob@, icvp_blob@),
                bud1::records_view(records@) == all.take(3 + i),
            decreases self.icon_positions@.len() - i,
        {
            let place = &self.icon_positions[i];
            let record = Bud1Record {
                name: place.0.clone(),
                type_code: ['I' as u8, 'l' as u8, 'o' as u8, 'c' as u8],
                sub_type: ['b' as u8, 'l' as u8, 'o' as u8, 'b' as u8],
                data: build_iloc_blob(place.1, place.2),
            };
            assert(all[3 + i] == place_record(self@.icon_positions[i as int]));
            assert(record@.type_code =~= all[3 + i].type_code);
            assert(record@.sub_type =~= all[3 + i].sub_type);
            let ghost before = bud1::records_view(records@);
            records.push(record);
            assert(bud1::records_view(records@) =~= before.push(all[3 + i]));
            i += 1;
            assert(bud1::records_view(records@) =~= all.take(3 + i));
        }
        let placed: usize = self.icon_positions.len();
        let mut j: usize = 0;
        while j < self.hide_extensions.len()
            invariant
                j <= self.hide_extensions@.len(),
                placed == self.icon_positions@.len(),
                all == self@.records(bwsp_blob@, icvp_blob@),
                bud1::records_view(records@) == all.take(3 + placed + j),
            decreases self.hide_extensions@.len() - j,
        {
            let mut shown: Vec<u8> = Vec::new();
            shown.push(1);
            let record = Bud1Record {
                name: self.hide_extensions[j].clone(),
                type_code: ['e' as u8, 'x' as u8, 't' as u8, 'n' as u8],
                sub_type: ['b' as u8, 'o' as u8, 'o' as u8, 'l' as u8],
                data: shown,
            };
            assert(all[3 + placed + j] == hidden_record(self@.hide_extensions[j as int]));
            assert(record@.type_code =~= all[3 + placed + j].type_code);
            assert(record@.sub_type =~= all[3 + placed + j].sub_type);
            assert(record@.data =~= all[3 + placed + j].data);
            let ghost before = bud1::records_view(records@);
            records.push(record);
            assert(bud1::records_view(records@) =~= before.push(all[3 + placed + j]));
            j += 1;
            assert(bud1::records_view(records@) =~= all.take(3 + placed + j));
        }
        assert(bud1::records_view(records@) =~= all);
        records
    }

    /// All records, with the property lists encoded.
    fn all_records(&self) -> (r: Result<Vec<Bud1Record>, DsStoreError>)
        ensures
            r is Ok,
            bud1::records_view(r->Ok_0@) == self@.records(self@.bwsp(), self@.icvp()),
    {
        let bwsp_blob = match self.bwsp_blob() {
            Ok(blob) => blob,
            Err(e) => {
                return Err(e);
            },
        };
        let icvp_blob = match self.icvp_blob() {
            Ok(blob) => blob,
            Err(e) => {
                return Err(e);
            },
        };
        Ok(self.records(bwsp_blob, icvp_blob))
    }

    /// Build the `.DS_Store` binary data.
    pub fn build(self) -> (r: Result<Vec<u8>, DsStoreError>)
        requires
            self@.leaf_size() <= LEAF_LIMIT,
        ensures
            r is Ok,
            r->Ok_0@ == self@.file(),
            bud1::stored_records(r->Ok_0@) == Some(self@.records(self@.bwsp(), self@.icvp())),
    {
        let records = match self.all_records() {
            Ok(records) => records,
            Err(e) => {
                return Err(e);
            },
        };
        proof {
            law_settings_read_back(self@, self@.bwsp(), self@.icvp());
        }
        Ok(bud1::serialize_bud1(records.as_slice()))
    }

    /// Build the `.DS_Store` binary data, or say that the records take more
    /// room than one leaf has.
    pub fn try_build(self) -> (r: Result<Vec<u8>, DsStoreError>)
        ensures
            match r {
                Ok(file) => {
                    &&& self@.leaf_size() <= LEAF_LIMIT
                    &&& file@ == self@.file()
                    &&& bud1::stored_records(file@) == Some(
                        self@.records(self@.bwsp(), self@.icvp()),
                    )
                },
                Err(e) => self@.leaf_size() > LEAF_LIMIT && e is TooLarge,
            },
    {
        let records = match self.all_records() {
            Ok(records) => records,
            Err(e) => {
                return Err(e);
            },
        };
        if bud1::leaf_content(records.as_slice()).len() <= LEAF_LIMIT {
            self.build()
        } else {
            Err(DsStoreError::TooLarge)
        }
    }
}

/// The settings of the Finder layout for decorations and the bundle that they
/// are put around.
pub open spec fn layout_settings(
    decorations: Decorations,
    root_name: Seq<char>,
) -> DsStoreSettings {
    DsStoreSettings::none().decorated(decorations, root_name)
}

/// The `.DS_Store` file with the Finder layout for decorations and the bundle
/// that they are put around.
pub fn layout_file(decorations: &DmgDecorations, root_name: &str) -> (r: Result<
    Vec<u8>,
    DsStoreError,
>)
    ensures
        match r {
            Ok(file) => {
                &&& layout_settings(decorations@, root_name@).leaf_size() <= LEAF_LIMIT
                &&& file@ == layout_settings(decorations@, root_name@).file()
            },
            Err(e) => layout_settings(decorations@, root_name@).leaf_size() > LEAF_LIMIT
                && e is TooLarge,
        },
{
    DsStoreBuilder::new().apply_decorations(decorations, root_name).try_build()
}

impl Default for DsStoreBuilder {
    fn default() -> (r: Self)
        ensures
            r@ == DsStoreSettings::none(),
    {
        Self::new()
    }
}

/// Reading a generated file gives back the records for the settings it was
/// generated from, whatever the property lists are encoded as.
pub proof fn law_settings_read_back(settings: DsStoreSettings, bwsp: Seq<u8>, icvp: Seq<u8>)
    requires
        bud1::leaf(settings.records(bwsp, icvp)).len() <= LEAF_LIMIT,
    ensures
        bud1::stored_records(bud1::bud1_file(settings.records(bwsp, icvp))) == Some(
            settings.records(bwsp, icvp),
        ),
{
    let records = settings.records(bwsp, icvp);
    assert forall|i: int| 0 <= i < records.len() implies bud1::readable(#[trigger] records[i]) by {
        bud1::lemma_record_within(records, i);
        assert(bud1::record_bytes(records[i]).len() <= bud1::leaf(records).len());
    }
    bud1::law_records_read_back(records);
}

/// Decorations keep every position that was given and give one to the rest:
/// some app has a place, and so has each drop link.
pub proof fn law_icons_have_places(d: Decorations, app_name: Seq<char>)
    ensures
        ({
            let places = decorated_positions(d, app_name);
            &&& d.icon_positions.len() <= places.len()
            &&& places.take(d.icon_positions.len() as int) == d.icon_positions
            &&& placed_with_suffix(places, ".app"@) || placed(places, app_name)
            &&& d.app_drop_link is Some ==> placed(places, "Applications"@)
            &&& d.ql_drop_link is Some ==> placed(places, "QuickLook"@)
        }),
{
    let given = d.icon_positions;
    let with_app = if placed_with_suffix(given, ".app"@) {
        given
    } else {
        given.push((app_name, 150, 190))
    };
    let with_applications = with_link(with_app, "Applications"@, d.app_drop_link);
    let places = decorated_positions(d, app_name);
    assert(places.take(given.len() as int) =~= given);
    if placed_with_suffix(given, ".app"@) {
        let i = choose|i: int|
            0 <= i < given.len() && text::ends_with((#[trigger] given[i]).0, ".app"@);
        assert(places[i] == given[i]);
    } else {
        assert(places[given.len() as int] == with_app[given.len() as int]);
    }
    if d.app_drop_link is Some {
        if placed(with_app, "Applications"@) {
            let i = choose|i: int|
                0 <= i < with_app.len() && (#[trigger] with_app[i]).0 == "Applications"@;
            assert(places[i] == with_app[i]);
        } else {
            assert(places[with_app.len() as int] == with_applications[with_app.len() as int]);
        }
    }
    if d.ql_drop_link is Some && !placed(with_applications, "QuickLook"@) {
        assert(places[with_applications.len() as int].0 == "QuickLook"@);
    }
}

// ---------------------------------------------------------------------------
// What a generated file says
// ---------------------------------------------------------------------------

/// Whether `data` is a property list of `count` entries, no two of which have
/// the same key, one of them being `value` under `key`.
pub open spec fn says(data: Seq<u8>, count: nat, key: Seq<char>, value: PlistScalar) -> bool {
    exists|entries: Seq<(Seq<char>, PlistScalar)>|
        #![trigger plist_blob::binary_plist(entries)]
        data == plist_blob::binary_plist(entries) && entries.len() == count
            && plist_blob::keys_differ(entries) && entries.contains((key, value))
}

/// Whether `bounds` writes a window at x, y with width w and height h: four
/// decimal numbers, in this order, between braces and commas.
pub open spec fn writes_bounds(bounds: Seq<char>, x: i32, y: i32, w: i32, h: i32) -> bool {
    exists|a: Seq<char>, b: Seq<char>, c: Seq<char>, d: Seq<char>|
        bounds == #[trigger] ("{{"@ + a + ", "@ + b + "}, {"@ + c + ", "@ + d + "}}"@)
            && text::number(a) == Some(x) && text::number(b) == Some(y) && text::number(c) == Some(
            w,
        ) && text::number(d) == Some(h)
}

/// Whether the window that `data` describes is at x, y with width w and height
/// h.
pub open spec fn opens_window(data: Seq<u8>, x: i32, y: i32, w: i32, h: i32) -> bool {
    exists|bounds: Seq<char>| #[trigger]
        writes_bounds(bounds, x, y, w, h) && says(
            data,
            6,
            "WindowBounds"@,
            PlistScalar::Text(bounds),
        )
}

/// Whether a record is one of the folder itself, with this type code and a
/// blob for its data.
pub open spec fn is_folder_blob(record: Record, type_code: Seq<u8>) -> bool {
    &&& record.name == seq!['.']
    &&& record.type_code == type_code
    &&& record.sub_type == seq![0x62u8, 0x6c, 0x6f, 0x62]
}

/// Whether a record places the icon called `name` at x, y: two four-byte
/// numbers, in two's complement, and the mark of positioned items.
pub open spec fn is_place(record: Record, name: Seq<char>, x: i32, y: i32) -> bool {
    &&& record.name == name
    &&& record.type_code == seq![0x49u8, 0x6c, 0x6f, 0x63]
    &&& record.sub_type == seq![0x62u8, 0x6c, 0x6f, 0x62]
    &&& record.data.len() == 16
    &&& (bud1::number_at(record.data, 0) - x) % 0x1_0000_0000 == 0
    &&& (bud1::number_at(record.data, 4) - y) % 0x1_0000_0000 == 0
    &&& record.data.skip(8) == seq![0xffu8, 0xff, 0xff, 0xff, 0xff, 0xff, 0, 0]
}

/// Whether a record hides the extension of the file called `name`.
pub open spec fn is_hidden(record: Record, name: Seq<char>) -> bool {
    &&& record.name == name
    &&& record.type_code == seq![0x65u8, 0x78, 0x74, 0x6e]
    &&& record.sub_type == seq![0x62u8, 0x6f, 0x6f, 0x6c]
    &&& record.data == seq![1u8]
}

proof fn lemma_bounds(x: i32, y: i32, w: i32, h: i32)
    ensures
        writes_bounds(bounds_text(x as int, y as int, w as int, h as int), x, y, w, h),
{
    text::law_number_reads_back(x);
    text::law_number_reads_back(y);
    text::law_number_reads_back(w);
    text::law_number_reads_back(h);
    let a = text::decimal(x as int);
    let b = text::decimal(y as int);
    let c = text::decimal(w as int);
    let d = text::decimal(h as int);
    assert(bounds_text(x as int, y as int, w as int, h as int) == "{{"@ + a + ", "@ + b + "}, {"@
        + c + ", "@ + d + "}}"@);
}

proof fn lemma_says(entries: Seq<(Seq<char>, PlistScalar)>, i: int)
    requires
        plist_blob::keys_differ(entries),
        0 <= i < entries.len(),
    ensures
        says(plist_blob::binary_plist(entries), entries.len(), entries[i].0, entries[i].1),
{
    assert(entries.contains((entries[i].0, entries[i].1)));
}

proof fn lemma_codes()
    ensures
        bud1::code('b', 'w', 's', 'p') == seq![0x62u8, 0x77, 0x73, 0x70],
        bud1::code('i', 'c', 'v', 'p') == seq![0x69u8, 0x63, 0x76, 0x70],
        bud1::code('v', 'S', 'r', 'n') == seq![0x76u8, 0x53, 0x72, 0x6e],
        bud1::code('I', 'l', 'o', 'c') == seq![0x49u8, 0x6c, 0x6f, 0x63],
        bud1::code('e', 'x', 't', 'n') == seq![0x65u8, 0x78, 0x74, 0x6e],
        bud1::blob() == seq![0x62u8, 0x6c, 0x6f, 0x62],
        bud1::long() == seq![0x6cu8, 0x6f, 0x6e, 0x67],
        bud1::boolean() == seq![0x62u8, 0x6f, 0x6f, 0x6c],
{
    assert(bud1::code('b', 'w', 's', 'p') =~= seq![0x62u8, 0x77, 0x73, 0x70]);
    assert(bud1::code('i', 'c', 'v', 'p') =~= seq![0x69u8, 0x63, 0x76, 0x70]);
    assert(bud1::code('v', 'S', 'r', 'n') =~= seq![0x76u8, 0x53, 0x72, 0x6e]);
    assert(bud1::code('I', 'l', 'o', 'c') =~= seq![0x49u8, 0x6c, 0x6f, 0x63]);
    assert(bud1::code('e', 'x', 't', 'n') =~= seq![0x65u8, 0x78, 0x74, 0x6e]);
    assert(bud1::blob() =~= seq![0x62u8, 0x6c, 0x6f, 0x62]);
    assert(bud1::long() =~= seq![0x6cu8, 0x6f, 0x6e, 0x67]);
    assert(bud1::boolean() =~= seq![0x62u8, 0x6f, 0x6f, 0x6c]);
}

proof fn lemma_place(place: (Seq<char>, i32, i32))
    ensures
        is_place(place_record(place), place.0, place.1, place.2),
{
    let data = iloc(place.1, place.2);
    let x = bytes::complement32(place.1);
    let y = bytes::complement32(place.2);
    lemma_codes();
    bytes::law_be32_reads_back(x);
    bytes::law_be32_reads_back(y);
    assert(data.subrange(0, 4) =~= bytes::be32(x));
    assert(data.subrange(4, 8) =~= bytes::be32(y));
    assert(data.skip(8) =~= seq![0xffu8, 0xff, 0xff, 0xff, 0xff, 0xff, 0, 0]);
}

/// The first three records are the folder's.
proof fn lemma_folder_records(settings: DsStoreSettings, bwsp: Seq<u8>, icvp: Seq<u8>)
    ensures
        ({
            let records = settings.records(bwsp, icvp);
            &&& records.len() == 3 + settings.icon_positions.len() + settings.hide_extensions.len()
            &&& is_folder_blob(records[0], seq![0x62u8, 0x77, 0x73, 0x70])
            &&& records[0].data == bwsp
            &&& is_folder_blob(records[1], seq![0x69u8, 0x63, 0x76, 0x70])
            &&& records[1].data == icvp
            &&& records[2].name == seq!['.']
            &&& records[2].type_code == seq![0x76u8, 0x53, 0x72, 0x6e]
            &&& records[2].sub_type == seq![0x6cu8, 0x6f, 0x6e, 0x67]
            &&& records[2].data == seq![0u8, 0, 0, 1]
        }),
{
    lemma_codes();
    reveal_strlit(".");
    assert("."@ =~= seq!['.']);
    assert(bytes::be32(1) =~= seq![0u8, 0, 0, 1]);
}

/// A generated file says of the window what the decorations ask for: it opens
/// at the position and with the size that were given, or at 100, 100 with 640
/// by 480 where none was given, without status bar, tool bar and tabs, and with
/// the side bar.
pub proof fn law_layout_shows_the_window(d: Decorations, root: Seq<char>)
    requires
        layout_settings(d, root).leaf_size() <= LEAF_LIMIT,
    ensures
        ({
            let records = bud1::stored_records(layout_settings(d, root).file())->0;
            let pos = match d.window_pos {
                Some(pos) => pos,
                None => (100i32, 100i32),
            };
            let size = match d.window_size {
                Some(size) => size,
                None => (640i32, 480i32),
            };
            &&& bud1::stored_records(layout_settings(d, root).file()) is Some
            &&& is_folder_blob(records[0], seq![0x62u8, 0x77, 0x73, 0x70])
            &&& opens_window(records[0].data, pos.0, pos.1, size.0, size.1)
            &&& says(records[0].data, 6, "ShowStatusBar"@, PlistScalar::Boolean(false))
            &&& says(records[0].data, 6, "ShowToolbar"@, PlistScalar::Boolean(false))
            &&& says(records[0].data, 6, "ShowTabView"@, PlistScalar::Boolean(false))
            &&& says(records[0].data, 6, "ContainerShowSidebar"@, PlistScalar::Boolean(true))
            &&& says(records[0].data, 6, "ShowSidebar"@, PlistScalar::Boolean(true))
        }),
{
    let settings = layout_settings(d, root);
    let pos = match d.window_pos {
        Some(pos) => pos,
        None => (100i32, 100i32),
    };
    let size = match d.window_size {
        Some(size) => size,
        None => (640i32, 480i32),
    };
    let (x, y, w, h) = (pos.0 as int, pos.1 as int, size.0 as int, size.1 as int);
    let entries = bwsp_entries(x, y, w, h);
    law_settings_read_back(settings, settings.bwsp(), settings.icvp());
    lemma_folder_records(settings, settings.bwsp(), settings.icvp());
    lemma_bwsp_keys(x, y, w, h);
    assert(settings.bwsp() == plist_blob::binary_plist(entries));
    lemma_bounds(pos.0, pos.1, size.0, size.1);
    let records = bud1::stored_records(settings.file())->0;
    let bounds = bounds_text(x, y, w, h);
    assert(entries.len() == 6);
    assert(records[0].data == plist_blob::binary_plist(entries));
    lemma_says(entries, 0);
    lemma_says(entries, 1);
    lemma_says(entries, 2);
    lemma_says(entries, 3);
    lemma_says(entries, 4);
    lemma_says(entries, 5);
    assert(entries[4] == ("WindowBounds"@, PlistScalar::Text(bounds)));
    assert(writes_bounds(bounds, pos.0, pos.1, size.0, size.1));
    assert(opens_window(records[0].data, pos.0, pos.1, size.0, size.1));
}

/// A generated file says of the icons what the decorations ask for: they show
/// in the size that was given, or in 100, with labels in the size that was
/// given, or in 16, over a picture where there is a background, unsorted, in a
/// grid of 100 and with their labels below.
pub proof fn law_layout_shows_the_icons(d: Decorations, root: Seq<char>)
    requires
        layout_settings(d, root).leaf_size() <= LEAF_LIMIT,
    ensures
        ({
            let records = bud1::stored_records(layout_settings(d, root).file())->0;
            let data = records[1].data;
            &&& bud1::stored_records(layout_settings(d, root).file()) is Some
            &&& is_folder_blob(records[1], seq![0x69u8, 0x63, 0x76, 0x70])
            &&& d.icon_size is Some ==> says(
                data,
                14,
                "iconSize"@,
                PlistScalar::Real(d.icon_size->0),
            )
            &&& d.icon_size is None ==> says(data, 14, "iconSize"@, PlistScalar::Real(100))
            &&& d.text_size is Some ==> says(
                data,
                14,
                "textSize"@,
                PlistScalar::Real(d.text_size->0),
            )
            &&& d.text_size is None ==> says(data, 14, "textSize"@, PlistScalar::Real(16))
            &&& d.background is Some ==> says(data, 14, "backgroundType"@, PlistScalar::Integer(2))
            &&& d.background is None ==> says(data, 14, "backgroundType"@, PlistScalar::Integer(0))
            &&& says(data, 14, "arrangeBy"@, PlistScalar::Text("none"@))
            &&& says(data, 14, "backgroundColorBlue"@, PlistScalar::Real(1))
            &&& says(data, 14, "showIconPreview"@, PlistScalar::Boolean(true))
            &&& says(data, 14, "backgroundColorRed"@, PlistScalar::Real(1))
            &&& says(data, 14, "backgroundColorGreen"@, PlistScalar::Real(1))
            &&& says(data, 14, "gridOffsetX"@, PlistScalar::Real(0))
            &&& says(data, 14, "gridOffsetY"@, PlistScalar::Real(0))
            &&& says(data, 14, "showItemInfo"@, PlistScalar::Boolean(false))
            &&& says(data, 14, "viewOptionsVersion"@, PlistScalar::Integer(1))
            &&& says(data, 14, "labelOnBottom"@, PlistScalar::Boolean(true))
            &&& says(data, 14, "gridSpacing"@, PlistScalar::Real(100))
        }),
{
    let settings = layout_settings(d, root);
    let icon_size = match d.icon_size {
        Some(size) => size,
        None => 100u32,
    };
    let text_size = match d.text_size {
        Some(size) => size,
        None => 16u32,
    };
    let entries = icvp_entries(icon_size, text_size, d.background is Some);
    law_settings_read_back(settings, settings.bwsp(), settings.icvp());
    lemma_folder_records(settings, settings.bwsp(), settings.icvp());
    lemma_icvp_keys(icon_size, text_size, d.background is Some);
    assert(settings.icvp() == plist_blob::binary_plist(entries));
    assert(entries.len() == 14);
    lemma_says(entries, 0);
    lemma_says(entries, 1);
    lemma_says(entries, 2);
    lemma_says(entries, 3);
    lemma_says(entries, 4);
    lemma_says(entries, 5);
    lemma_says(entries, 6);
    lemma_says(entries, 7);
    lemma_says(entries, 8);
    lemma_says(entries, 9);
    lemma_says(entries, 10);
    lemma_says(entries, 11);
    lemma_says(entries, 12);
    lemma_says(entries, 13);
}

/// Whether one of the places, from `from` on, is for the icon called `name`.
pub open spec fn stands(records: Seq<Record>, from: int, to: int, name: Seq<char>) -> bool {
    exists|i: int| from <= i < to && (#[trigger] records[i]).name == name
}

/// Whether the records place the icons and hide the extensions that the
/// decorations ask for: from the fourth record on come those that were given,
/// in their order and where they were given; then the bundle at 150, 190 where
/// no given name ends in `.app`; then each drop link where it was asked for,
/// unless its icon has a place already; then one record for each extension.
pub open spec fn places_icons(records: Seq<Record>, d: Decorations, root: Seq<char>) -> bool {
    let given = d.icon_positions;
    let has_app = exists|i: int|
        0 <= i < given.len() && text::ends_with(
            (#[trigger] given[i]).0,
            seq!['.', 'a', 'p', 'p'],
        );
    let first = 3 + given.len() as int;
    let second = if has_app {
        first
    } else {
        first + 1
    };
    let app_link = d.app_drop_link is Some && !stands(records, 3, second, "Applications"@);
    let third = if app_link {
        second + 1
    } else {
        second
    };
    let ql_link = d.ql_drop_link is Some && !stands(records, 3, third, "QuickLook"@);
    let fourth = if ql_link {
        third + 1
    } else {
        third
    };
    &&& forall|i: int|
        0 <= i < given.len() ==> is_place(
            #[trigger] records[3 + i],
            given[i].0,
            given[i].1,
            given[i].2,
        )
    &&& !has_app ==> is_place(records[first], root, 150, 190)
    &&& app_link ==> is_place(
        records[second],
        "Applications"@,
        (d.app_drop_link->0).0,
        (d.app_drop_link->0).1,
    )
    &&& ql_link ==> is_place(
        records[third],
        "QuickLook"@,
        (d.ql_drop_link->0).0,
        (d.ql_drop_link->0).1,
    )
    &&& records.len() == fourth + d.hide_extensions.len()
    &&& forall|i: int|
        0 <= i < d.hide_extensions.len() ==> is_hidden(
            #[trigger] records[fourth + i],
            d.hide_extensions[i],
        )
}

proof fn lemma_places_icons(
    records: Seq<Record>,
    d: Decorations,
    root: Seq<char>,
    places: Seq<(Seq<char>, i32, i32)>,
)
    requires
        places == decorated_positions(d, root),
        records.len() == 3 + places.len() + d.hide_extensions.len(),
        forall|i: int|
            0 <= i < places.len() ==> is_place(
                #[trigger] records[3 + i],
                places[i].0,
                places[i].1,
                places[i].2,
            ),
        forall|i: int|
            0 <= i < d.hide_extensions.len() ==> is_hidden(
                #[trigger] records[3 + places.len() + i],
                d.hide_extensions[i],
            ),
    ensures
        places_icons(records, d, root),
{
    let given = d.icon_positions;
    reveal_strlit(".app");
    assert(".app"@ =~= seq!['.', 'a', 'p', 'p']);
    let has_app = placed_with_suffix(given, ".app"@);
    let with_app = if has_app {
        given
    } else {
        given.push((root, 150, 190))
    };
    let with_applications = with_link(with_app, "Applications"@, d.app_drop_link);
    assert(places == with_link(with_applications, "QuickLook"@, d.ql_drop_link));
    assert(places.take(with_applications.len() as int) =~= with_applications);
    assert(places.take(with_app.len() as int) =~= with_app);
    lemma_stands(records, places, with_app, "Applications"@);
    lemma_stands(records, places, with_applications, "QuickLook"@);
    assert forall|i: int| 0 <= i < given.len() implies is_place(
        #[trigger] records[3 + i],
        given[i].0,
        given[i].1,
        given[i].2,
    ) by {
        assert(places[i] == given[i]);
    }
    if !has_app {
        let first = given.len() as int;
        assert(places[first] == with_app[first]);
        assert(is_place(records[3 + first], places[first].0, places[first].1, places[first].2));
    }
    if with_applications.len() > with_app.len() {
        let second = with_app.len() as int;
        assert(places[second] == with_applications[second]);
        assert(is_place(
            records[3 + second],
            places[second].0,
            places[second].1,
            places[second].2,
        ));
    }
    if places.len() > with_applications.len() {
        let third = with_applications.len() as int;
        assert(is_place(records[3 + third], places[third].0, places[third].1, places[third].2));
    }
}

/// A generated file places the icons and hides the extensions that the
/// decorations ask for, and has no record beside these and the folder's.
pub proof fn law_layout_places_the_icons(d: Decorations, root: Seq<char>)
    requires
        layout_settings(d, root).leaf_size() <= LEAF_LIMIT,
    ensures
        bud1::stored_records(layout_settings(d, root).file()) is Some,
        places_icons(bud1::stored_records(layout_settings(d, root).file())->0, d, root),
{
    let settings = layout_settings(d, root);
    let records = settings.records(settings.bwsp(), settings.icvp());
    let places = settings.icon_positions;
    law_settings_read_back(settings, settings.bwsp(), settings.icvp());
    lemma_folder_records(settings, settings.bwsp(), settings.icvp());
    lemma_codes();
    assert forall|i: int| 0 <= i < places.len() implies is_place(
        #[trigger] records[3 + i],
        places[i].0,
        places[i].1,
        places[i].2,
    ) by {
        assert(records[3 + i] == place_record(places[i]));
        lemma_place(places[i]);
    }
    assert forall|i: int| 0 <= i < d.hide_extensions.len() implies is_hidden(
        #[trigger] records[3 + places.len() + i],
        d.hide_extensions[i],
    ) by {
        assert(records[3 + places.len() + i] == hidden_record(d.hide_extensions[i]));
    }
    lemma_places_icons(records, d, root, places);
}

proof fn lemma_stands(
    records: Seq<Record>,
    places: Seq<(Seq<char>, i32, i32)>,
    some: Seq<(Seq<char>, i32, i32)>,
    name: Seq<char>,
)
    requires
        some.len() <= places.len(),
        places.take(some.len() as int) == some,
        forall|i: int|
            0 <= i < places.len() ==> is_place(
                #[trigger] records[3 + i],
                places[i].0,
                places[i].1,
                places[i].2,
            ),
    ensures
        stands(records, 3, 3int + some.len(), name) <==> placed(some, name),
{
    assert forall|i: int| 0 <= i < some.len() implies (#[trigger] some[i]).0 == records[3 + i].name by {
        assert(some[i] == places.take(some.len() as int)[i]);
    }
    if stands(records, 3, 3int + some.len(), name) {
        let i = choose|i: int| 3 <= i < 3 + some.len() && (#[trigger] records[i]).name == name;
        assert(records[3 + (i - 3)].name == some[i - 3].0);
    }
    if placed(some, name) {
        let i = choose|i: int| 0 <= i < some.len() && (#[trigger] some[i]).0 == name;
        assert(records[3 + i].name == name);
    }
}

/// The defaults hold as well for a builder that was given no decorations: the
/// window is where its settings say, or at 100, 100 with 640 by 480, and icons
/// and labels have the sizes of its settings, or 100 and 16.
pub proof fn law_settings_have_defaults(settings: DsStoreSettings)
    requires
        settings.leaf_size() <= LEAF_LIMIT,
    ensures
        ({
            let records = bud1::stored_records(settings.file())->0;
            let pos = match settings.window_pos {
                Some(pos) => pos,
                None => (100i32, 100i32),
            };
            let size = match settings.window_size {
                Some(size) => size,
                None => (640i32, 480i32),
            };
            let icon_size = match settings.icon_size {
                Some(size) => size,
                None => 100u32,
            };
            let text_size = match settings.text_size {
                Some(size) => size,
                None => 16u32,
            };
            &&& bud1::stored_records(settings.file()) is Some
            &&& is_folder_blob(records[0], seq![0x62u8, 0x77, 0x73, 0x70])
            &&& opens_window(records[0].data, pos.0, pos.1, size.0, size.1)
            &&& is_folder_blob(records[1], seq![0x69u8, 0x63, 0x76, 0x70])
            &&& says(records[1].data, 14, "iconSize"@, PlistScalar::Real(icon_size))
            &&& says(records[1].data, 14, "textSize"@, PlistScalar::Real(text_size))
            &&& settings.background_path is Some ==> says(
                records[1].data,
                14,
                "backgroundType"@,
                PlistScalar::Integer(2),
            )
            &&& settings.background_path is None ==> says(
                records[1].data,
                14,
                "backgroundType"@,
                PlistScalar::Integer(0),
            )
        }),
{
    let pos = match settings.window_pos {
        Some(pos) => pos,
        None => (100i32, 100i32),
    };
    let size = match settings.window_size {
        Some(size) => size,
        None => (640i32, 480i32),
    };
    let icon_size = match settings.icon_size {
        Some(size) => size,
        None => 100u32,
    };
    let text_size = match settings.text_size {
        Some(size) => size,
        None => 16u32,
    };
    let (x, y, w, h) = (pos.0 as int, pos.1 as int, size.0 as int, size.1 as int);
    let window = bwsp_entries(x, y, w, h);
    let icons = icvp_entries(icon_size, text_size, settings.background_path is Some);
    law_settings_read_back(settings, settings.bwsp(), settings.icvp());
    lemma_folder_records(settings, settings.bwsp(), settings.icvp());
    lemma_bwsp_keys(x, y, w, h);
    lemma_icvp_keys(icon_size, text_size, settings.background_path is Some);
    let records = bud1::stored_records(settings.file())->0;
    assert(window.len() == 6);
    assert(records[0].data == plist_blob::binary_plist(window));
    assert(icons.len() == 14);
    assert(records[1].data == plist_blob::binary_plist(icons));
    lemma_bounds(pos.0, pos.1, size.0, size.1);
    lemma_says(window, 4);
    assert(writes_bounds(bounds_text(x, y, w, h), pos.0, pos.1, size.0, size.1));
    assert(opens_window(records[0].data, pos.0, pos.1, size.0, size.1));
    lemma_says(icons, 2);
    lemma_says(icons, 4);
    lemma_says(icons, 12);
}

/// Decorations replace what a builder was set to before, but for the background,
/// which stays where they have none.
pub proof fn law_decorations_replace_settings(
    before: DsStoreSettings,
    d: Decorations,
    root: Seq<char>,
)
    ensures
        ({
            let after = before.decorated(d, root);
            let fresh = layout_settings(d, root);
            &&& after.window_pos == fresh.window_pos
            &&& after.window_size == fresh.window_size
            &&& after.icon_size == fresh.icon_size
            &&& after.text_size == fresh.text_size
            &&& after.icon_positions == fresh.icon_positions
            &&& after.hide_extensions == fresh.hide_extensions
            &&& d.background is None ==> after.background_path == before.background_path
                && fresh.background_path is None
            &&& d.background is Some ==> after.background_path == Some(
                ".background:"@ + (d.background->0).1,
            )
        }),
{
}

/// A new builder makes a file for a window at 100, 100 with 640 by 480 and icons
/// of 100 with labels of 16 on the default background, and for nothing else.
pub proof fn law_new_builder_asks_for_the_defaults()
    requires
        DsStoreSettings::none().leaf_size() <= LEAF_LIMIT,
    ensures
        ({
            let records = bud1::stored_records(DsStoreSettings::none().file())->0;
            &&& bud1::stored_records(DsStoreSettings::none().file()) is Some
            &&& records.len() == 3
            &&& opens_window(records[0].data, 100, 100, 640, 480)
            &&& says(records[1].data, 14, "iconSize"@, PlistScalar::Real(100))
            &&& says(records[1].data, 14, "textSize"@, PlistScalar::Real(16))
            &&& says(records[1].data, 14, "backgroundType"@, PlistScalar::Integer(0))
        }),
{
    let settings = DsStoreSettings::none();
    law_settings_have_defaults(settings);
    law_settings_read_back(settings, settings.bwsp(), settings.icvp());
    lemma_folder_records(settings, settings.bwsp(), settings.icvp());
}

} // verus!

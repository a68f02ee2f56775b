//! License resources of a disk image, which make macOS ask for agreement
//! before it mounts the image.
use crate::text;
use vstd::prelude::*;

verus! {

broadcast use vstd::string::group_string_axioms;

/// One resource of a given type.
#[derive(Debug)]
pub struct ResourceEntry {
    pub attributes: u16,
    pub data: Vec<u8>,
    pub id: String,
    pub name: String,
}

/// What a [`ResourceEntry`] holds, with its type.
pub struct Resource {
    pub kind: Seq<char>,
    pub attributes: u16,
    pub data: Seq<u8>,
    pub id: Seq<char>,
    pub name: Seq<char>,
}

/// What a list of resources holds.
pub open spec fn resources_view(list: Seq<(String, ResourceEntry)>) -> Seq<Resource> {
    Seq::new(
        list.len(),
        |i: int|
            Resource {
                kind: list[i].0@,
                attributes: list[i].1.attributes,
                data: list[i].1.data@,
                id: list[i].1.id@,
                name: list[i].1.name@,
            },
    )
}

/// The six bits that a letter of the Base64 alphabet stands for.
pub open spec fn sextet(c: char) -> Option<int> {
    let n = c as u32 as int;
    if 'A' <= c <= 'Z' {
        Some(n - 'A' as u32)
    } else if 'a' <= c <= 'z' {
        Some(n - 'a' as u32 + 26)
    } else if '0' <= c <= '9' {
        Some(n - '0' as u32 + 52)
    } else if c == '+' {
        Some(62)
    } else if c == '/' {
        Some(63)
    } else {
        None
    }
}

/// The first `count` bytes of the three that four letters stand for, where the
/// other bytes are zero.
#[verifier::opaque]
pub open spec fn group_bytes(
    a: Option<int>,
    b: Option<int>,
    c: Option<int>,
    d: Option<int>,
    count: int,
) -> Option<Seq<u8>> {
    match (a, b, c, d) {
        (Some(a), Some(b), Some(c), Some(d)) => {
            let n = 0x4_0000 * a + 0x1000 * b + 0x40 * c + d;
            let three = seq![(n / 0x1_0000) as u8, (n / 0x100 % 0x100) as u8, (n % 0x100) as u8];
            if forall|i: int| count <= i < 3 ==> #[trigger] three[i] == 0 {
                Some(three.take(count))
            } else {
                None
            }
        },
        _ => None,
    }
}

/// The bytes of the last four letters, of which the last or the last two may be
/// padding: the bytes that padding leaves out are zero.
pub open spec fn last_bytes(g: Seq<char>) -> Option<Seq<u8>> {
    if g[3] != '=' {
        group_bytes(sextet(g[0]), sextet(g[1]), sextet(g[2]), sextet(g[3]), 3)
    } else if g[2] != '=' {
        group_bytes(sextet(g[0]), sextet(g[1]), sextet(g[2]), Some(0), 2)
    } else {
        group_bytes(sextet(g[0]), sextet(g[1]), Some(0), Some(0), 1)
    }
}

/// The bytes that a text holds in Base64, if it is well formed: groups of four
/// letters, with padding at the end where the last group is short.
pub open spec fn base64_bytes(encoded: Seq<char>) -> Option<Seq<u8>>
    decreases encoded.len(),
{
    if encoded.len() == 0 {
        Some(Seq::empty())
    } else if encoded.len() < 4 {
        None
    } else if encoded.len() == 4 {
        last_bytes(encoded)
    } else {
        match (
            group_bytes(
                sextet(encoded[0]),
                sextet(encoded[1]),
                sextet(encoded[2]),
                sextet(encoded[3]),
                3,
            ),
            base64_bytes(encoded.skip(4)),
        ) {
            (Some(first), Some(rest)) => Some(first + rest),
            _ => None,
        }
    }
}

/// Whether the first `count` characters of a text are letters of Base64.
spec fn are_letters(encoded: Seq<char>, count: nat) -> bool
    decreases count,
{
    count == 0 || (sextet(encoded[count - 1]) is Some && are_letters(encoded, (count - 1) as nat))
}

proof fn lemma_letters_from(encoded: Seq<char>, start: int, count: nat)
    requires
        0 <= start <= count <= encoded.len(),
        are_letters(encoded, count),
    ensures
        are_letters(encoded.skip(start), (count - start) as nat),
    decreases count,
{
    if start < count {
        lemma_letters_from(encoded, start, (count - 1) as nat);
        assert(encoded.skip(start)[count - 1 - start] == encoded[count - 1]);
    }
}

proof fn lemma_letter_within(encoded: Seq<char>, count: nat, i: int)
    requires
        are_letters(encoded, count),
        0 <= i < count,
    ensures
        sextet(encoded[i]) is Some,
    decreases count,
{
    if i < count - 1 {
        lemma_letter_within(encoded, (count - 1) as nat, i);
    }
}

/// Four letters are a group.
proof fn lemma_group(a: Option<int>, b: Option<int>, c: Option<int>, d: Option<int>)
    requires
        a is Some,
        b is Some,
        c is Some,
        d is Some,
    ensures
        group_bytes(a, b, c, d, 3) is Some,
        group_bytes(a, b, c, d, 3)->0.len() == 3,
{
    reveal(group_bytes);
}

/// Groups of letters before a good last group are well formed.
#[verifier::rlimit(40)]
proof fn lemma_well_formed(encoded: Seq<char>)
    requires
        encoded.len() > 0,
        encoded.len() % 4 == 0,
        are_letters(encoded, (encoded.len() - 4) as nat),
        last_bytes(encoded.skip(encoded.len() - 4)) is Some,
    ensures
        base64_bytes(encoded) is Some,
    decreases encoded.len(),
{
    if encoded.len() == 4 {
        assert(encoded.skip(0) =~= encoded);
    } else {
        let rest = encoded.skip(4);
        let before = (encoded.len() - 4) as nat;
        lemma_letter_within(encoded, before, 0);
        lemma_letter_within(encoded, before, 1);
        lemma_letter_within(encoded, before, 2);
        lemma_letter_within(encoded, before, 3);
        lemma_group(
            sextet(encoded[0]),
            sextet(encoded[1]),
            sextet(encoded[2]),
            sextet(encoded[3]),
        );
        lemma_letters_from(encoded, 4, before);
        assert(rest.skip(rest.len() - 4) =~= encoded.skip(encoded.len() - 4));
        lemma_well_formed(rest);
    }
}

/// The languages, in Base64.
pub const LPIC: &'static str = "AAAAAgAAAAAAAAAAAAQAAA==";

/// The first set of button texts, in Base64.
pub const BUTTONS: &'static str = "AAYNRW5nbGlzaCB0ZXN0MQVBZ3JlZQhEaXNhZ3JlZQVQcmludAdTYXZlLi4ueklmIHlvdSBhZ3JlZSB3aXRoIHRoZSB0ZXJtcyBvZiB0aGlzIGxpY2Vuc2UsIGNsaWNrICJBZ3JlZSIgdG8gYWNjZXNzIHRoZSBzb2Z0d2FyZS4gSWYgeW91IGRvIG5vdCBhZ3JlZSwgY2xpY2sgIkRpc2FncmVlIi4=";

/// The second set of button texts, in Base64.
pub const PROMPT: &'static str = "AAYHRW5nbGlzaAVBZ3JlZQhEaXNhZ3JlZQVQcmludAdTYXZlLi4ue0lmIHlvdSBhZ3JlZSB3aXRoIHRoZSB0ZXJtcyBvZiB0aGlzIGxpY2Vuc2UsIHByZXNzICJBZ3JlZSIgdG8gaW5zdGFsbCB0aGUgc29mdHdhcmUuIElmIHlvdSBkbyBub3QgYWdyZWUsIGNsaWNrICJEaXNhZ3JlZSIu";

/// The template, in Base64.
pub const TEMPLATE: &'static str = "E0RlZmF1bHQgTGFuZ3VhZ2UgSUREV1JEBUNvdW50T0NOVAQqKioqTFNUQwtzeXMgbGFuZyBJRERXUkQebG9jYWwgcmVzIElEIChvZmZzZXQgZnJvbSA1MDAwRFdSRBAyLWJ5dGUgbGFuZ3VhZ2U/RFdSRAQqKioqTFNURQ==";

/// The style, in Base64.
pub const STYLE: &'static str = "AAMAAAAAAAwACQAUAAAAAAAAAAAAAAAAACcADAAJABQBAAAAAAAAAAAAAAAAKgAMAAkAFAAAAAAAAAAAAAA=";

proof fn lemma_lpic_decodes()
    ensures
        base64_bytes(LPIC@) is Some,
{
    reveal_strlit("AAAAAgAAAAAAAAAAAAQAAA==");
    let encoded = LPIC@;
    assert(encoded.len() == 24);
    reveal_with_fuel(are_letters, 41);
    assert(are_letters(encoded, 20));
    reveal(group_bytes);
    let last = encoded.skip(20);
    assert(last[0] == 'A' && last[1] == 'A' && last[2] == '=' && last[3] == '=');
    lemma_well_formed(encoded);
}

proof fn lemma_buttons_decodes()
    ensures
        base64_bytes(BUTTONS@) is Some,
{
    reveal_strlit(
        "AAYNRW5nbGlzaCB0ZXN0MQVBZ3JlZQhEaXNhZ3JlZQVQcmludAdTYXZlLi4ueklmIHlvdSBhZ3JlZSB3aXRoIHRoZSB0ZXJtcyBvZiB0aGlzIGxpY2Vuc2UsIGNsaWNrICJBZ3JlZSIgdG8gYWNjZXNzIHRoZSBzb2Z0d2FyZS4gSWYgeW91IGRvIG5vdCBhZ3JlZSwgY2xpY2sgIkRpc2FncmVlIi4=",
    );
    let encoded = BUTTONS@;
    assert(encoded.len() == 224);
    reveal_with_fuel(are_letters, 41);
    assert(are_letters(encoded, 40));
    assert(are_letters(encoded, 80));
    assert(are_letters(encoded, 120));
    assert(are_letters(encoded, 160));
    assert(are_letters(encoded, 200));
    assert(are_letters(encoded, 220));
    reveal(group_bytes);
    let last = encoded.skip(220);
    assert(last[0] == 'I' && last[1] == 'i' && last[2] == '4' && last[3] == '=');
    lemma_well_formed(encoded);
}

proof fn lemma_prompt_decodes()
    ensures
        base64_bytes(PROMPT@) is Some,
{
    reveal_strlit(
        "AAYHRW5nbGlzaAVBZ3JlZQhEaXNhZ3JlZQVQcmludAdTYXZlLi4ue0lmIHlvdSBhZ3JlZSB3aXRoIHRoZSB0ZXJtcyBvZiB0aGlzIGxpY2Vuc2UsIHByZXNzICJBZ3JlZSIgdG8gaW5zdGFsbCB0aGUgc29mdHdhcmUuIElmIHlvdSBkbyBub3QgYWdyZWUsIGNsaWNrICJEaXNhZ3JlZSIu",
    );
    let encoded = PROMPT@;
    assert(encoded.len() == 216);
    reveal_with_fuel(are_letters, 41);
    assert(are_letters(encoded, 40));
    assert(are_letters(encoded, 80));
    assert(are_letters(encoded, 120));
    assert(are_letters(encoded, 160));
    assert(are_letters(encoded, 200));
    assert(are_letters(encoded, 212));
    reveal(group_bytes);
    let last = encoded.skip(212);
    assert(last[0] == 'Z' && last[1] == 'S' && last[2] == 'I' && last[3] == 'u');
    lemma_well_formed(encoded);
}

proof fn lemma_template_decodes()
    ensures
        base64_bytes(TEMPLATE@) is Some,
{
    reveal_strlit(
        "E0RlZmF1bHQgTGFuZ3VhZ2UgSUREV1JEBUNvdW50T0NOVAQqKioqTFNUQwtzeXMgbGFuZyBJRERXUkQebG9jYWwgcmVzIElEIChvZmZzZXQgZnJvbSA1MDAwRFdSRBAyLWJ5dGUgbGFuZ3VhZ2U/RFdSRAQqKioqTFNURQ==",
    );
    let encoded = TEMPLATE@;
    assert(encoded.len() == 168);
    reveal_with_fuel(are_letters, 41);
    assert(are_letters(encoded, 40));
    assert(are_letters(encoded, 80));
    assert(are_letters(encoded, 120));
    assert(are_letters(encoded, 160));
    assert(are_letters(encoded, 164));
    reveal(group_bytes);
    let last = encoded.skip(164);
    assert(last[0] == 'R' && last[1] == 'Q' && last[2] == '=' && last[3] == '=');
    lemma_well_formed(encoded);
}

proof fn lemma_style_decodes()
    ensures
        base64_bytes(STYLE@) is Some,
{
    reveal_strlit(
        "AAMAAAAAAAwACQAUAAAAAAAAAAAAAAAAACcADAAJABQBAAAAAAAAAAAAAAAAKgAMAAkAFAAAAAAAAAAAAAA=",
    );
    let encoded = STYLE@;
    assert(encoded.len() == 84);
    reveal_with_fuel(are_letters, 41);
    assert(are_letters(encoded, 40));
    assert(are_letters(encoded, 80));
    reveal(group_bytes);
    let last = encoded.skip(80);
    assert(last[0] == 'A' && last[1] == 'A' && last[2] == 'A' && last[3] == '=');
    lemma_well_formed(encoded);
}

/// `base64::Engine::decode` of the standard engine gives the bytes that a text
/// holds in Base64, or an error where it is not well formed. Padding is
/// required, and bits that it leaves out have to be zero.
#[verifier::external_body]
fn base64_decode(s: &str) -> (r: Option<Vec<u8>>)
    ensures
        r is Some ==> base64_bytes(s@) == Some(r->0@),
        r is None ==> base64_bytes(s@) is None,
{
    base64::Engine::decode(&base64::engine::general_purpose::STANDARD, s).ok()
}

/// The fixed resources, decoded: the languages, the two sets of button texts,
/// the template and the style.
pub struct FixedResources {
    pub lpic: Vec<u8>,
    pub buttons: Vec<u8>,
    pub prompt: Vec<u8>,
    pub template: Vec<u8>,
    pub style: Vec<u8>,
}

/// A resource without attributes.
pub open spec fn resource(
    kind: Seq<char>,
    data: Seq<u8>,
    id: Seq<char>,
    name: Seq<char>,
) -> Resource {
    Resource { kind, attributes: 0, data, id, name }
}

/// The type of the resource that carries the license, by the extension of its
/// file.
pub open spec fn license_kind(extension: Option<Seq<char>>) -> Seq<char> {
    if extension is Some && text::lowered(extension->0) == "rtf"@ {
        "RTF "@
    } else {
        "TEXT"@
    }
}

/// All resources for a license, in order.
pub open spec fn license_resources(
    fixed: FixedResources,
    license: Seq<u8>,
    extension: Option<Seq<char>>,
) -> Seq<Resource> {
    seq![
        resource("LPic"@, fixed.lpic@, "5000"@, ""@),
        resource("STR#"@, fixed.buttons@, "5000"@, "English buttons"@),
        resource("STR#"@, fixed.prompt@, "5002"@, "English"@),
        resource(license_kind(extension), license, "5000"@, "English"@),
        resource("TMPL"@, fixed.template@, "128"@, "LPic"@),
        resource("styl"@, fixed.style@, "5000"@, "English"@),
    ]
}

/// Whether `fixed` is what the Base64 texts hold. These are the bytes that
/// macOS itself embeds: the license dialog depends on them.
pub open spec fn is_fixed(fixed: FixedResources) -> bool {
    &&& base64_bytes(LPIC@) == Some(fixed.lpic@)
    &&& base64_bytes(BUTTONS@) == Some(fixed.buttons@)
    &&& base64_bytes(PROMPT@) == Some(fixed.prompt@)
    &&& base64_bytes(TEMPLATE@) == Some(fixed.template@)
    &&& base64_bytes(STYLE@) == Some(fixed.style@)
}

/// The fixed resources could not be decoded.
#[derive(Debug)]
pub struct InvalidBase64;

/// Decodes the fixed resources.
fn fixed_resources() -> (r: Option<FixedResources>)
    ensures
        r is Some,
        is_fixed(r->0),
{
    proof {
        lemma_lpic_decodes();
        lemma_buttons_decodes();
        lemma_prompt_decodes();
        lemma_template_decodes();
        lemma_style_decodes();
    }
    let lpic = base64_decode(LPIC)?;
    let buttons = base64_decode(BUTTONS)?;
    let prompt = base64_decode(PROMPT)?;
    let template = base64_decode(TEMPLATE)?;
    let style = base64_decode(STYLE)?;
    Some(FixedResources { lpic, buttons, prompt, template, style })
}

fn entry(data: Vec<u8>, id: &str, name: &str) -> (r: ResourceEntry)
    ensures
        r.attributes == 0,
        r.data@ == data@,
        r.id@ == id@,
        r.name@ == name@,
{
    ResourceEntry { attributes: 0x0000, data, id: id.to_owned(), name: name.to_owned() }
}

/// Lays out the resources for a license, given the decoded fixed ones.
pub fn license_resource_list(
    fixed: FixedResources,
    license_data: Vec<u8>,
    extension: Option<&str>,
) -> (r: Vec<(String, ResourceEntry)>)
    ensures
        resources_view(r@) == license_resources(
            fixed,
            license_data@,
            match extension {
                Some(e) => Some(e@),
                None => None,
            },
        ),
{
    let is_rtf: bool = match extension {
        Some(e) => text::same(text::to_lower(e).as_str(), "rtf"),
        None => false,
    };
    let eula_type: &str = if is_rtf {
        "RTF "
    } else {
        "TEXT"
    };
    let ghost expected = license_resources(
        fixed,
        license_data@,
        match extension {
            Some(e) => Some(e@),
            None => None,
        },
    );
    let mut list: Vec<(String, ResourceEntry)> = Vec::new();
    list.push(("LPic".to_owned(), entry(fixed.lpic, "5000", "")));
    list.push(("STR#".to_owned(), entry(fixed.buttons, "5000", "English buttons")));
    list.push(("STR#".to_owned(), entry(fixed.prompt, "5002", "English")));
    list.push((eula_type.to_owned(), entry(license_data, "5000", "English")));
    list.push(("TMPL".to_owned(), entry(fixed.template, "128", "LPic")));
    list.push(("styl".to_owned(), entry(fixed.style, "5000", "English")));
    assert(resources_view(list@) =~= expected);
    list
}

/// Build the EULA resource-fork entries for a license.
///
/// Emits the fixed `LPic`, `STR#`, `TMPL`, `styl` resources plus a `TEXT` or
/// `RTF ` resource carrying the license file bytes. Resource type is chosen by
/// file extension: `.rtf` → `RTF `, otherwise `TEXT`.
pub fn build_eula_resources(license_data: Vec<u8>, extension: Option<&str>) -> (r: Result<
    Vec<(String, ResourceEntry)>,
    InvalidBase64,
>)
    ensures
        r is Ok,
        exists|fixed: FixedResources|
            #![trigger is_fixed(fixed)]
            is_fixed(fixed) && resources_view(r->Ok_0@) == license_resources(
                fixed,
                license_data@,
                match extension {
                    Some(e) => Some(e@),
                    None => None,
                },
            ),
{
    match fixed_resources() {
        Some(fixed) => {
            assert(is_fixed(fixed));
            Ok(license_resource_list(fixed, license_data, extension))
        },
        None => Err(InvalidBase64),
    }
}

// ---------------------------------------------------------------------------
// What the resources say
// ---------------------------------------------------------------------------

/// Whether `data` has these characters, one byte each, from `at` on.
pub open spec fn spells(data: Seq<u8>, at: int, word: Seq<char>) -> bool {
    at + word.len() <= data.len() && forall|i: int|
        0 <= i < word.len() ==> #[trigger] data[at + i] as int == word[i] as int
}

/// The bytes of a group that is not the last, behind those of the others.
proof fn lemma_group_at(encoded: Seq<char>, g: int)
    requires
        base64_bytes(encoded) is Some,
        0 <= g,
        4 * g + 4 < encoded.len(),
    ensures
        ({
            let data = base64_bytes(encoded)->0;
            let bytes = group_bytes(
                sextet(encoded[4 * g]),
                sextet(encoded[4 * g + 1]),
                sextet(encoded[4 * g + 2]),
                sextet(encoded[4 * g + 3]),
                3,
            );
            bytes is Some && 3 * g + 3 <= data.len() && data.subrange(3 * g, 3 * g + 3) == bytes->0
        }),
    decreases g,
{
    let data = base64_bytes(encoded)->0;
    let first = group_bytes(
        sextet(encoded[0]),
        sextet(encoded[1]),
        sextet(encoded[2]),
        sextet(encoded[3]),
        3,
    );
    let rest = encoded.skip(4);
    assert(first is Some && base64_bytes(rest) is Some);
    assert(first->0.len() == 3) by {
        reveal(group_bytes);
    }
    let others = base64_bytes(rest)->0;
    assert(data == first->0 + others);
    if g == 0 {
        assert(data.subrange(0, 3) =~= first->0);
    } else {
        lemma_group_at(rest, g - 1);
        assert(data.subrange(3 * g, 3 * g + 3) =~= others.subrange(3 * g - 3, 3 * g));
    }
}

proof fn lemma_group_value(a: int, b: int, c: int, d: int, x: u8, y: u8, z: u8)
    requires
        0x4_0000 * a + 0x1000 * b + 0x40 * c + d == 0x1_0000 * x + 0x100 * y + z,
    ensures
        group_bytes(Some(a), Some(b), Some(c), Some(d), 3) == Some(seq![x, y, z]),
{
    reveal(group_bytes);
    let n = 0x4_0000 * a + 0x1000 * b + 0x40 * c + d;
    let three = seq![(n / 0x1_0000) as u8, (n / 0x100 % 0x100) as u8, (n % 0x100) as u8];
    assert(three =~= seq![x, y, z]);
    assert(three.take(3) =~= three);
}

/// The three bytes of a group that is not the last.
proof fn lemma_three_bytes(encoded: Seq<char>, g: int, x: u8, y: u8, z: u8)
    requires
        base64_bytes(encoded) is Some,
        0 <= g,
        4 * g + 4 < encoded.len(),
        ({
            let a = sextet(encoded[4 * g]);
            let b = sextet(encoded[4 * g + 1]);
            let c = sextet(encoded[4 * g + 2]);
            let d = sextet(encoded[4 * g + 3]);
            a is Some && b is Some && c is Some && d is Some && 0x4_0000 * a->0 + 0x1000 * b->0
                + 0x40 * c->0 + d->0 == 0x1_0000 * x + 0x100 * y + z
        }),
    ensures
        3 * g + 3 <= base64_bytes(encoded)->0.len(),
        base64_bytes(encoded)->0[3 * g] == x,
        base64_bytes(encoded)->0[3 * g + 1] == y,
        base64_bytes(encoded)->0[3 * g + 2] == z,
{
    let found = base64_bytes(encoded)->0.subrange(3 * g, 3 * g + 3);
    lemma_group_at(encoded, g);
    lemma_group_value(
        sextet(encoded[4 * g])->0,
        sextet(encoded[4 * g + 1])->0,
        sextet(encoded[4 * g + 2])->0,
        sextet(encoded[4 * g + 3])->0,
        x,
        y,
        z,
    );
    assert(found == seq![x, y, z]);
    assert(found[0] == x && found[1] == y && found[2] == z);
}

/// How the list of languages starts.
proof fn lemma_lpic_starts()
    ensures
        base64_bytes(LPIC@)->0.len() >= 15,
        base64_bytes(LPIC@)->0.take(15) == seq![0u8, 0, 0, 2, 0, 0, 0, 0, 0, 0, 0, 0, 0, 4, 0],
{
    reveal_strlit("AAAAAgAAAAAAAAAAAAQAAA==");
    let encoded = LPIC@;
    lemma_lpic_decodes();
    lemma_three_bytes(encoded, 0, 0, 0, 0);
    lemma_three_bytes(encoded, 1, 2, 0, 0);
    lemma_three_bytes(encoded, 2, 0, 0, 0);
    lemma_three_bytes(encoded, 3, 0, 0, 0);
    lemma_three_bytes(encoded, 4, 0, 4, 0);
    assert(base64_bytes(LPIC@)->0.take(15) =~= seq![0u8, 0, 0, 2, 0, 0, 0, 0, 0, 0, 0, 0, 0, 4, 0]);
}

/// How the texts with the buttons start.
proof fn lemma_buttons_starts()
    ensures
        base64_bytes(BUTTONS@)->0.len() >= 24,
        base64_bytes(BUTTONS@)->0[1] == 6,
        base64_bytes(BUTTONS@)->0[2] == 13,
        spells(base64_bytes(BUTTONS@)->0, 3, "English test1"@),
        base64_bytes(BUTTONS@)->0[16] == 5,
        spells(base64_bytes(BUTTONS@)->0, 17, "Agree"@),
{
    reveal_strlit(
        "AAYNRW5nbGlzaCB0ZXN0MQVBZ3JlZQhEaXNhZ3JlZQVQcmludAdTYXZlLi4ueklmIHlvdSBhZ3JlZSB3aXRoIHRoZSB0ZXJtcyBvZiB0aGlzIGxpY2Vuc2UsIGNsaWNrICJBZ3JlZSIgdG8gYWNjZXNzIHRoZSBzb2Z0d2FyZS4gSWYgeW91IGRvIG5vdCBhZ3JlZSwgY2xpY2sgIkRpc2FncmVlIi4=",
    );
    let encoded = BUTTONS@;
    lemma_buttons_decodes();
    lemma_three_bytes(encoded, 0, 0, 6, 13);
    lemma_three_bytes(encoded, 1, 69, 110, 103);
    lemma_three_bytes(encoded, 2, 108, 105, 115);
    lemma_three_bytes(encoded, 3, 104, 32, 116);
    lemma_three_bytes(encoded, 4, 101, 115, 116);
    lemma_three_bytes(encoded, 5, 49, 5, 65);
    lemma_three_bytes(encoded, 6, 103, 114, 101);
    lemma_three_bytes(encoded, 7, 101, 8, 68);
    reveal_strlit("English test1");
    assert(spells(base64_bytes(BUTTONS@)->0, 3, "English test1"@)) by {
        let word = "English test1"@;
        assert(word.len() == 13);
        assert forall|i: int| 0 <= i < word.len() implies #[trigger] base64_bytes(BUTTONS@)->0[3 + i] as int
            == word[i] as int by {
            assert(i == 0 || i == 1 || i == 2 || i == 3 || i == 4 || i == 5 || i == 6 || i == 7 || i == 8 || i == 9 || i == 10 || i == 11 || i == 12);
        }
    }
    reveal_strlit("Agree");
    assert(spells(base64_bytes(BUTTONS@)->0, 17, "Agree"@)) by {
        let word = "Agree"@;
        assert(word.len() == 5);
        assert forall|i: int| 0 <= i < word.len() implies #[trigger] base64_bytes(BUTTONS@)->0[17 + i] as int
            == word[i] as int by {
            assert(i == 0 || i == 1 || i == 2 || i == 3 || i == 4);
        }
    }
}

/// How the texts with the prompt start.
proof fn lemma_prompt_starts()
    ensures
        base64_bytes(PROMPT@)->0.len() >= 18,
        base64_bytes(PROMPT@)->0[1] == 6,
        base64_bytes(PROMPT@)->0[2] == 7,
        spells(base64_bytes(PROMPT@)->0, 3, "English"@),
        base64_bytes(PROMPT@)->0[10] == 5,
        spells(base64_bytes(PROMPT@)->0, 11, "Agree"@),
{
    reveal_strlit(
        "AAYHRW5nbGlzaAVBZ3JlZQhEaXNhZ3JlZQVQcmludAdTYXZlLi4ue0lmIHlvdSBhZ3JlZSB3aXRoIHRoZSB0ZXJtcyBvZiB0aGlzIGxpY2Vuc2UsIHByZXNzICJBZ3JlZSIgdG8gaW5zdGFsbCB0aGUgc29mdHdhcmUuIElmIHlvdSBkbyBub3QgYWdyZWUsIGNsaWNrICJEaXNhZ3JlZSIu",
    );
    let encoded = PROMPT@;
    lemma_prompt_decodes();
    lemma_three_bytes(encoded, 0, 0, 6, 7);
    lemma_three_bytes(encoded, 1, 69, 110, 103);
    lemma_three_bytes(encoded, 2, 108, 105, 115);
    lemma_three_bytes(encoded, 3, 104, 5, 65);
    lemma_three_bytes(encoded, 4, 103, 114, 101);
    lemma_three_bytes(encoded, 5, 101, 8, 68);
    reveal_strlit("English");
    assert(spells(base64_bytes(PROMPT@)->0, 3, "English"@)) by {
        let word = "English"@;
        assert(word.len() == 7);
        assert forall|i: int| 0 <= i < word.len() implies #[trigger] base64_bytes(PROMPT@)->0[3 + i] as int
            == word[i] as int by {
            assert(i == 0 || i == 1 || i == 2 || i == 3 || i == 4 || i == 5 || i == 6);
        }
    }
    reveal_strlit("Agree");
    assert(spells(base64_bytes(PROMPT@)->0, 11, "Agree"@)) by {
        let word = "Agree"@;
        assert(word.len() == 5);
        assert forall|i: int| 0 <= i < word.len() implies #[trigger] base64_bytes(PROMPT@)->0[11 + i] as int
            == word[i] as int by {
            assert(i == 0 || i == 1 || i == 2 || i == 3 || i == 4);
        }
    }
}

/// How the template starts.
proof fn lemma_template_starts()
    ensures
        base64_bytes(TEMPLATE@)->0.len() >= 24,
        base64_bytes(TEMPLATE@)->0[0] == 19,
        spells(base64_bytes(TEMPLATE@)->0, 1, "Default Language ID"@),
        spells(base64_bytes(TEMPLATE@)->0, 20, "DWRD"@),
{
    reveal_strlit(
        "E0RlZmF1bHQgTGFuZ3VhZ2UgSUREV1JEBUNvdW50T0NOVAQqKioqTFNUQwtzeXMgbGFuZyBJRERXUkQebG9jYWwgcmVzIElEIChvZmZzZXQgZnJvbSA1MDAwRFdSRBAyLWJ5dGUgbGFuZ3VhZ2U/RFdSRAQqKioqTFNURQ==",
    );
    let encoded = TEMPLATE@;
    lemma_template_decodes();
    lemma_three_bytes(encoded, 0, 19, 68, 101);
    lemma_three_bytes(encoded, 1, 102, 97, 117);
    lemma_three_bytes(encoded, 2, 108, 116, 32);
    lemma_three_bytes(encoded, 3, 76, 97, 110);
    lemma_three_bytes(encoded, 4, 103, 117, 97);
    lemma_three_bytes(encoded, 5, 103, 101, 32);
    lemma_three_bytes(encoded, 6, 73, 68, 68);
    lemma_three_bytes(encoded, 7, 87, 82, 68);
    reveal_strlit("Default Language ID");
    assert(spells(base64_bytes(TEMPLATE@)->0, 1, "Default Language ID"@)) by {
        let word = "Default Language ID"@;
        assert(word.len() == 19);
        assert forall|i: int| 0 <= i < word.len() implies #[trigger] base64_bytes(TEMPLATE@)->0[1 + i] as int
            == word[i] as int by {
            assert(i == 0 || i == 1 || i == 2 || i == 3 || i == 4 || i == 5 || i == 6 || i == 7 || i == 8 || i == 9 || i == 10 || i == 11 || i == 12 || i == 13 || i == 14 || i == 15 || i == 16 || i == 17 || i == 18);
        }
    }
    reveal_strlit("DWRD");
    assert(spells(base64_bytes(TEMPLATE@)->0, 20, "DWRD"@)) by {
        let word = "DWRD"@;
        assert(word.len() == 4);
        assert forall|i: int| 0 <= i < word.len() implies #[trigger] base64_bytes(TEMPLATE@)->0[20 + i] as int
            == word[i] as int by {
            assert(i == 0 || i == 1 || i == 2 || i == 3);
        }
    }
}

/// How the style starts.
proof fn lemma_style_starts()
    ensures
        base64_bytes(STYLE@)->0.len() >= 12,
        base64_bytes(STYLE@)->0.take(12) == seq![0u8, 3, 0, 0, 0, 0, 0, 12, 0, 9, 0, 20],
{
    reveal_strlit(
        "AAMAAAAAAAwACQAUAAAAAAAAAAAAAAAAACcADAAJABQBAAAAAAAAAAAAAAAAKgAMAAkAFAAAAAAAAAAAAAA=",
    );
    let encoded = STYLE@;
    lemma_style_decodes();
    lemma_three_bytes(encoded, 0, 0, 3, 0);
    lemma_three_bytes(encoded, 1, 0, 0, 0);
    lemma_three_bytes(encoded, 2, 0, 12, 0);
    lemma_three_bytes(encoded, 3, 9, 0, 20);
    assert(base64_bytes(STYLE@)->0.take(12) =~= seq![0u8, 3, 0, 0, 0, 0, 0, 12, 0, 9, 0, 20]);
}

/// Each fixed resource is the one that its place is for: the list of one
/// language, the six texts of the dialog with its buttons and those with its
/// prompt, the template of the list, and a style of three runs.
pub proof fn law_fixed_resources_are_in_their_places(fixed: FixedResources)
    requires
        is_fixed(fixed),
    ensures
        fixed.lpic@.take(15) == seq![0u8, 0, 0, 2, 0, 0, 0, 0, 0, 0, 0, 0, 0, 4, 0],
        fixed.buttons@[1] == 6 && fixed.buttons@[2] == 13,
        spells(fixed.buttons@, 3, "English test1"@),
        fixed.buttons@[16] == 5 && spells(fixed.buttons@, 17, "Agree"@),
        fixed.prompt@[1] == 6 && fixed.prompt@[2] == 7,
        spells(fixed.prompt@, 3, "English"@),
        fixed.prompt@[10] == 5 && spells(fixed.prompt@, 11, "Agree"@),
        fixed.template@[0] == 19 && spells(fixed.template@, 1, "Default Language ID"@),
        spells(fixed.template@, 20, "DWRD"@),
        fixed.style@.take(12) == seq![0u8, 3, 0, 0, 0, 0, 0, 12, 0, 9, 0, 20],
{
    lemma_lpic_starts();
    lemma_buttons_starts();
    lemma_prompt_starts();
    lemma_template_starts();
    lemma_style_starts();
}

/// Whether a resource is of this type, with this id, name and content, and
/// without attributes.
pub open spec fn is_resource(
    item: (String, ResourceEntry),
    kind: Seq<char>,
    id: Seq<char>,
    name: Seq<char>,
    data: Seq<u8>,
) -> bool {
    &&& item.0@ == kind
    &&& item.1.id@ == id
    &&& item.1.name@ == name
    &&& item.1.data@ == data
    &&& item.1.attributes == 0
}

/// The resources are the license, as rich text where its file name ends in
/// `rtf` in any case and as plain text otherwise, and the five fixed ones around
/// it.
pub proof fn law_license_is_among_the_resources(
    list: Seq<(String, ResourceEntry)>,
    fixed: FixedResources,
    license: Seq<u8>,
    extension: Option<Seq<char>>,
)
    requires
        resources_view(list) == license_resources(fixed, license, extension),
    ensures
        list.len() == 6,
        is_resource(list[0], "LPic"@, "5000"@, ""@, fixed.lpic@),
        is_resource(list[1], "STR#"@, "5000"@, "English buttons"@, fixed.buttons@),
        is_resource(list[2], "STR#"@, "5002"@, "English"@, fixed.prompt@),
        extension is Some && text::lowered(extension->0) == seq!['r', 't', 'f'] ==> is_resource(
            list[3],
            "RTF "@,
            "5000"@,
            "English"@,
            license,
        ),
        extension is None || text::lowered(extension->0) != seq!['r', 't', 'f'] ==> is_resource(
            list[3],
            "TEXT"@,
            "5000"@,
            "English"@,
            license,
        ),
        is_resource(list[4], "TMPL"@, "128"@, "LPic"@, fixed.template@),
        is_resource(list[5], "styl"@, "5000"@, "English"@, fixed.style@),
{
    let view = resources_view(list);
    assert(view.len() == list.len());
    reveal_strlit("rtf");
    assert("rtf"@ =~= seq!['r', 't', 'f']);
    assert(view[0].kind == list[0].0@);
    assert(view[1].kind == list[1].0@);
    assert(view[2].kind == list[2].0@);
    assert(view[3].kind == list[3].0@);
    assert(view[4].kind == list[4].0@);
    assert(view[5].kind == list[5].0@);
}

} // verus!

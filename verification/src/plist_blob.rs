//! Property lists in Apple's binary format, through the `plist` crate.
use vstd::prelude::*;

verus! {

/// A value that a property list entry holds.
pub enum PlistValue {
    Boolean(bool),
    Text(String),
    Integer(i64),
    /// A real number that happens to be whole.
    Real(u32),
}

/// What a [`PlistValue`] is; `Other` stands for every value outside that type.
pub enum PlistScalar {
    Boolean(bool),
    Text(Seq<char>),
    Integer(i64),
    Real(u32),
    Other,
}

impl View for PlistValue {
    type V = PlistScalar;

    open spec fn view(&self) -> PlistScalar {
        match self {
            PlistValue::Boolean(b) => PlistScalar::Boolean(*b),
            PlistValue::Text(s) => PlistScalar::Text(s@),
            PlistValue::Integer(n) => PlistScalar::Integer(*n),
            PlistValue::Real(n) => PlistScalar::Real(*n),
        }
    }
}

/// The dictionary type of the `plist` crate.
#[verifier::external_type_specification]
#[verifier::external_body]
pub struct ExDictionary(plist::Dictionary);

/// The error type of the `plist` crate.
#[verifier::external_type_specification]
#[verifier::external_body]
pub struct ExPlistError(plist::Error);

/// The entries of a dictionary, in the order in which they are walked.
pub uninterp spec fn entries_of(dictionary: plist::Dictionary) -> Seq<(Seq<char>, PlistScalar)>;

/// The binary property list (`bplist00`) for a dictionary with these entries.
pub uninterp spec fn binary_plist(entries: Seq<(Seq<char>, PlistScalar)>) -> Seq<u8>;

/// The place of `key` among the keys of `entries`.
pub open spec fn is_at(entries: Seq<(Seq<char>, PlistScalar)>, key: Seq<char>, i: int) -> bool {
    0 <= i < entries.len() && entries[i].0 == key
}

/// `entries` with `key` set to `value`: where the key stands already, or
/// behind all others.
pub open spec fn with_entry(
    entries: Seq<(Seq<char>, PlistScalar)>,
    key: Seq<char>,
    value: PlistScalar,
) -> Seq<(Seq<char>, PlistScalar)> {
    if exists|i: int| is_at(entries, key, i) {
        entries.update(choose|i: int| is_at(entries, key, i), (key, value))
    } else {
        entries.push((key, value))
    }
}

/// The entries of a dictionary that was given `list` one after the other.
pub open spec fn collected(list: Seq<(Seq<char>, PlistScalar)>) -> Seq<(Seq<char>, PlistScalar)>
    decreases list.len(),
{
    if list.len() == 0 {
        Seq::empty()
    } else {
        with_entry(collected(list.drop_last()), list.last().0, list.last().1)
    }
}

/// Whether no key comes twice.
pub open spec fn keys_differ(list: Seq<(Seq<char>, PlistScalar)>) -> bool {
    forall|i: int, j: int|
        #![trigger list[i], list[j]]
        0 <= i < j < list.len() ==> list[i].0 != list[j].0
}

/// Entries with different keys are kept as they were given.
pub proof fn lemma_collected(list: Seq<(Seq<char>, PlistScalar)>)
    requires
        keys_differ(list),
    ensures
        collected(list) == list,
    decreases list.len(),
{
    if list.len() > 0 {
        let before = list.drop_last();
        assert forall|i: int, j: int|
            #![trigger before[i], before[j]]
            0 <= i < j < before.len() implies before[i].0 != before[j].0 by {
            assert(before[i] == list[i] && before[j] == list[j]);
        }
        lemma_collected(before);
        assert forall|i: int| !is_at(before, list.last().0, i) by {
            if 0 <= i < before.len() {
                assert(before[i] == list[i]);
                assert(list[list.len() - 1] == list.last());
            }
        }
        assert(before.push(list.last()) =~= list);
    } else {
        assert(list =~= Seq::empty());
    }
}

/// Whether all values in `entries` are ones that a [`PlistValue`] can be.
pub open spec fn all_scalars(entries: Seq<(Seq<char>, PlistScalar)>) -> bool {
    forall|i: int| 0 <= i < entries.len() ==> !((#[trigger] entries[i]).1 is Other)
}

/// `plist::Dictionary::new` makes a dictionary without entries.
#[verifier::external_body]
fn new_dictionary() -> (dictionary: plist::Dictionary)
    ensures
        entries_of(dictionary) == Seq::<(Seq<char>, PlistScalar)>::empty(),
{
    plist::Dictionary::new()
}

/// `plist::Dictionary::insert` replaces the value of a key that is there, and
/// otherwise puts the entry behind all others: a dictionary keeps the order of
/// insertion. The keys of a dictionary are distinct, so there is at most one
/// place for a key.
#[verifier::external_body]
fn insert(dictionary: &mut plist::Dictionary, key: &str, value: &PlistValue)
    ensures
        entries_of(*final(dictionary)) == with_entry(entries_of(*old(dictionary)), key@, value@),
{
    let value = match value {
        PlistValue::Boolean(b) => plist::Value::Boolean(*b),
        PlistValue::Text(s) => plist::Value::String(s.clone()),
        PlistValue::Integer(n) => plist::Value::Integer((*n).into()),
        PlistValue::Real(n) => plist::Value::Real((*n).into()),
    };
    dictionary.insert(key.to_string(), value);
}

/// `plist::to_writer_binary` writes a dictionary whose values are all scalars
/// to memory without an error, and what it writes depends on the entries and
/// their order alone.
#[verifier::external_body]
fn to_binary(dictionary: plist::Dictionary) -> (r: Result<Vec<u8>, plist::Error>)
    requires
        all_scalars(entries_of(dictionary)),
    ensures
        r is Ok,
        r->Ok_0@ == binary_plist(entries_of(dictionary)),
{
    let mut bytes: Vec<u8> = Vec::new();
    plist::to_writer_binary(&mut bytes, &plist::Value::Dictionary(dictionary))?;
    Ok(bytes)
}

/// The keys and values in a list of entries.
pub open spec fn listed(list: Seq<(&'static str, PlistValue)>) -> Seq<(Seq<char>, PlistScalar)> {
    Seq::new(list.len(), |i: int| (list[i].0@, list[i].1@))
}

/// Encodes a dictionary with the entries of `list`, in their order.
pub fn encode(list: &[(&'static str, PlistValue)]) -> (r: Result<Vec<u8>, plist::Error>)
    requires
        keys_differ(listed(list@)),
    ensures
        r is Ok,
        r->Ok_0@ == binary_plist(listed(list@)),
{
    let mut dictionary = new_dictionary();
    let mut i: usize = 0;
    assert(listed(list@).take(0) =~= Seq::empty());
    while i < list.len()
        invariant
            i <= list@.len(),
            entries_of(dictionary) == collected(listed(list@).take(i as int)),
            all_scalars(entries_of(dictionary)),
        decreases list@.len() - i,
    {
        insert(&mut dictionary, list[i].0, &list[i].1);
        assert(listed(list@).take(i + 1).drop_last() =~= listed(list@).take(i as int));
        i += 1;
    }
    assert(listed(list@).take(i as int) =~= listed(list@));
    proof {
        lemma_collected(listed(list@));
    }
    to_binary(dictionary)
}

} // verus!

//! Text as a sequence of characters: splitting, trimming, searching and
//! numbers written in decimal.
//!
//! Every operation works on the Unicode scalar values of a string, and its
//! contract speaks of the string's view, a `Seq<char>`.
use vstd::prelude::*;

verus! {

broadcast use vstd::string::group_string_axioms;

/// `String::push` appends one character to the end of the string.
pub assume_specification[ String::push ](string: &mut String, ch: char)
    ensures
        final(string)@ == old(string)@.push(ch),
;

// ---------------------------------------------------------------------------
// What the operations mean
// ---------------------------------------------------------------------------

/// The views of a sequence of strings.
pub open spec fn views(texts: Seq<String>) -> Seq<Seq<char>> {
    Seq::new(texts.len(), |i: int| texts[i]@)
}

/// The pieces of `text` between occurrences of `separator`, as `str::split`
/// yields them. With a limit, the last piece keeps whatever is left once that
/// many pieces have begun, as with `str::splitn`.
pub open spec fn split_on(text: Seq<char>, separator: char, limit: Option<usize>) -> Seq<Seq<char>>
    decreases text.len(),
{
    if text.len() == 0 {
        seq![Seq::empty()]
    } else {
        let pieces = split_on(text.drop_last(), separator, limit);
        if text.last() == separator && (limit is None || pieces.len() < limit->0) {
            pieces.push(Seq::empty())
        } else {
            pieces.drop_last().push(pieces.last().push(text.last()))
        }
    }
}

/// Whether `c` has the Unicode property White_Space.
pub open spec fn is_white(c: char) -> bool {
    let n = c as u32;
    ||| 0x09 <= n <= 0x0d
    ||| n == 0x20
    ||| n == 0x85
    ||| n == 0xa0
    ||| n == 0x1680
    ||| 0x2000 <= n <= 0x200a
    ||| n == 0x2028
    ||| n == 0x2029
    ||| n == 0x202f
    ||| n == 0x205f
    ||| n == 0x3000
}

/// `text` without the white space at its start.
pub open spec fn trimmed_start(text: Seq<char>) -> Seq<char>
    decreases text.len(),
{
    if text.len() > 0 && is_white(text[0]) {
        trimmed_start(text.skip(1))
    } else {
        text
    }
}

/// `text` without the white space at its end.
pub open spec fn trimmed_end(text: Seq<char>) -> Seq<char>
    decreases text.len(),
{
    if text.len() > 0 && is_white(text.last()) {
        trimmed_end(text.drop_last())
    } else {
        text
    }
}

/// `text` without the white space at either end.
pub open spec fn trimmed(text: Seq<char>) -> Seq<char> {
    trimmed_end(trimmed_start(text))
}

/// `text` without the occurrences of `c` at its end.
pub open spec fn without_trailing(text: Seq<char>, c: char) -> Seq<char>
    decreases text.len(),
{
    if text.len() > 0 && text.last() == c {
        without_trailing(text.drop_last(), c)
    } else {
        text
    }
}

/// `c` with the ASCII letters `A` to `Z` made lower case.
pub open spec fn lower_char(c: char) -> char {
    if 'A' <= c <= 'Z' {
        (c as u8 + 32) as u8 as char
    } else {
        c
    }
}

/// `text` with the ASCII letters `A` to `Z` made lower case.
pub open spec fn lowered(text: Seq<char>) -> Seq<char> {
    Seq::new(text.len(), |i: int| lower_char(text[i]))
}

/// `text` with every `from` turned into `to`.
pub open spec fn replaced(text: Seq<char>, from: char, to: char) -> Seq<char> {
    Seq::new(
        text.len(),
        |i: int|
            if text[i] == from {
                to
            } else {
                text[i]
            },
    )
}

pub open spec fn starts_with(text: Seq<char>, prefix: Seq<char>) -> bool {
    prefix.len() <= text.len() && text.take(prefix.len() as int) == prefix
}

pub open spec fn ends_with(text: Seq<char>, suffix: Seq<char>) -> bool {
    suffix.len() <= text.len() && text.skip(text.len() - suffix.len()) == suffix
}

/// Whether `pattern` stands in `text` at position `at`.
pub open spec fn stands_at(text: Seq<char>, pattern: Seq<char>, at: int) -> bool {
    0 <= at && at + pattern.len() <= text.len() && text.subrange(at, at + pattern.len()) == pattern
}

pub open spec fn contains(text: Seq<char>, pattern: Seq<char>) -> bool {
    exists|at: int| stands_at(text, pattern, at)
}

/// How often `c` occurs in `text`.
pub open spec fn count_of(text: Seq<char>, c: char) -> nat
    decreases text.len(),
{
    if text.len() == 0 {
        0
    } else {
        count_of(text.drop_last(), c) + if text.last() == c {
            1nat
        } else {
            0nat
        }
    }
}

/// The position of the last `c` in `text`, if there is one.
pub open spec fn last_position(text: Seq<char>, c: char) -> Option<int>
    decreases text.len(),
{
    if text.len() == 0 {
        None
    } else if text.last() == c {
        Some(text.len() - 1)
    } else {
        last_position(text.drop_last(), c)
    }
}

/// What follows the last `c` in `text`, or all of it where there is none.
pub open spec fn after_last(text: Seq<char>, c: char) -> Seq<char> {
    match last_position(text, c) {
        Some(at) => text.skip(at + 1),
        None => text,
    }
}

/// Lexicographic order by code point, which is how `str` orders.
pub open spec fn precedes(a: Seq<char>, b: Seq<char>) -> bool
    decreases b.len(),
{
    if b.len() == 0 {
        false
    } else if a.len() == 0 {
        true
    } else {
        a[0] < b[0] || (a[0] == b[0] && precedes(a.skip(1), b.skip(1)))
    }
}

/// Whether `c` is a decimal digit.
pub open spec fn is_digit(c: char) -> bool {
    '0' <= c <= '9'
}

/// The character for the decimal digit `d`.
pub open spec fn digit_char(d: int) -> char {
    (d + '0' as u8) as u8 as char
}

/// `n` in decimal, without leading zeros.
pub open spec fn decimal_nat(n: nat) -> Seq<char>
    decreases n,
{
    if n < 10 {
        seq![digit_char(n as int)]
    } else {
        decimal_nat(n / 10).push(digit_char((n % 10) as int))
    }
}

/// `n` in decimal, with a minus sign where it is negative.
pub open spec fn decimal(n: int) -> Seq<char> {
    if n < 0 {
        seq!['-'] + decimal_nat((-n) as nat)
    } else {
        decimal_nat(n as nat)
    }
}

pub open spec fn all_digits(text: Seq<char>) -> bool {
    forall|i: int| 0 <= i < text.len() ==> is_digit(#[trigger] text[i])
}

/// The number that a sequence of digits writes in decimal.
pub open spec fn digits_value(digits: Seq<char>) -> nat
    decreases digits.len(),
{
    if digits.len() == 0 {
        0
    } else {
        digits_value(digits.drop_last()) * 10 + (digits.last() as u8 - '0' as u8) as nat
    }
}

/// The digits of a number: what follows an optional sign.
pub open spec fn unsigned_part(text: Seq<char>) -> Seq<char> {
    if text.len() > 0 && (text[0] == '-' || text[0] == '+') {
        text.skip(1)
    } else {
        text
    }
}

/// The value of a number with an optional sign.
pub open spec fn signed_value(text: Seq<char>) -> int {
    if text.len() > 0 && text[0] == '-' {
        -digits_value(unsigned_part(text))
    } else {
        digits_value(unsigned_part(text)) as int
    }
}

/// The 32-bit number that `text` writes: an optional sign and at least one
/// digit, within the range of the type.
pub open spec fn number(text: Seq<char>) -> Option<i32> {
    let digits = unsigned_part(text);
    if digits.len() == 0 || !all_digits(digits) {
        None
    } else if i32::MIN <= signed_value(text) <= i32::MAX {
        Some(signed_value(text) as i32)
    } else {
        None
    }
}

// ---------------------------------------------------------------------------
// Lexicographic order
// ---------------------------------------------------------------------------

/// No text comes before itself.
pub proof fn law_precedes_irreflexive(a: Seq<char>)
    ensures
        !precedes(a, a),
    decreases a.len(),
{
    if a.len() > 0 {
        law_precedes_irreflexive(a.skip(1));
    }
}

/// What comes before a text comes before all that follow that text.
pub proof fn law_precedes_transitive(a: Seq<char>, b: Seq<char>, c: Seq<char>)
    requires
        precedes(a, b),
        precedes(b, c),
    ensures
        precedes(a, c),
    decreases a.len(),
{
    if a.len() > 0 && a[0] == b[0] && b[0] == c[0] {
        law_precedes_transitive(a.skip(1), b.skip(1), c.skip(1));
    }
}

/// Of two different texts, one comes before the other.
pub proof fn law_precedes_total(a: Seq<char>, b: Seq<char>)
    requires
        a != b,
    ensures
        precedes(a, b) || precedes(b, a),
    decreases a.len(),
{
    if a.len() > 0 && b.len() > 0 {
        if a[0] == b[0] {
            if a.skip(1) == b.skip(1) {
                assert(a =~= seq![a[0]] + a.skip(1));
                assert(b =~= seq![b[0]] + b.skip(1));
            }
            law_precedes_total(a.skip(1), b.skip(1));
        }
    } else if a.len() == 0 && b.len() == 0 {
        assert(a =~= b);
    }
}

/// Characters are counted part by part.
pub proof fn lemma_count_concat(a: Seq<char>, b: Seq<char>, c: char)
    ensures
        count_of(a + b, c) == count_of(a, c) + count_of(b, c),
    decreases b.len(),
{
    if b.len() == 0 {
        assert(a + b =~= a);
    } else {
        assert((a + b).drop_last() =~= a + b.drop_last());
        lemma_count_concat(a, b.drop_last(), c);
    }
}

/// A text in lower case stays as it is when made lower case again.
pub proof fn law_lowered_stays(text: Seq<char>)
    ensures
        lowered(lowered(text)) == lowered(text),
{
    assert(lowered(lowered(text)) =~= lowered(text));
}

// ---------------------------------------------------------------------------
// Numbers and pieces
// ---------------------------------------------------------------------------

pub proof fn lemma_decimal_nat(n: nat)
    ensures
        decimal_nat(n).len() > 0,
        all_digits(decimal_nat(n)),
        digits_value(decimal_nat(n)) == n,
    decreases n,
{
    let text = decimal_nat(n);
    if n < 10 {
        assert(is_digit(digit_char(n as int)));
        assert(text.drop_last() =~= Seq::empty());
        assert(digits_value(text.drop_last()) == 0);
    } else {
        lemma_decimal_nat(n / 10);
        assert(is_digit(digit_char((n % 10) as int)));
        assert(text.drop_last() =~= decimal_nat(n / 10));
    }
}

/// What holds of the text of a number: it starts with a digit or a minus sign
/// and ends in a digit.
proof fn lemma_decimal_ends(n: int)
    ensures
        decimal(n).len() > 0,
        is_digit(decimal(n)[0]) || decimal(n)[0] == '-',
        is_digit(decimal(n).last()),
        forall|i: int|
            0 <= i < decimal(n).len() ==> is_digit(#[trigger] decimal(n)[i]) || decimal(n)[i]
                == '-',
{
    if n < 0 {
        lemma_decimal_nat((-n) as nat);
        let digits = decimal_nat((-n) as nat);
        assert(decimal(n).last() == digits.last());
        assert(is_digit(digits[digits.len() - 1]));
        assert forall|i: int| 0 <= i < decimal(n).len() implies is_digit(#[trigger] decimal(n)[i])
            || decimal(n)[i] == '-' by {
            if i > 0 {
                assert(decimal(n)[i] == digits[i - 1]);
            }
        }
    } else {
        lemma_decimal_nat(n as nat);
        let digits = decimal_nat(n as nat);
        assert(is_digit(digits[0]));
        assert(is_digit(digits[digits.len() - 1]));
    }
}

/// Every 32-bit number is read back from its decimal text.
pub proof fn law_number_reads_back(n: i32)
    ensures
        number(decimal(n as int)) == Some(n),
{
    let text = decimal(n as int);
    if n < 0 {
        lemma_decimal_nat((-n) as nat);
        assert(text.skip(1) =~= decimal_nat((-n) as nat));
    } else {
        lemma_decimal_nat(n as nat);
        assert(is_digit(text[0]));
    }
}

/// The text of a number has no white space around it.
pub proof fn law_decimal_is_trimmed(n: int)
    ensures
        trimmed(decimal(n)) == decimal(n),
{
    lemma_decimal_ends(n);
}

/// A text without the separator is one piece.
pub proof fn lemma_split_plain(text: Seq<char>, separator: char)
    requires
        !text.contains(separator),
    ensures
        split_on(text, separator, None) == seq![text],
    decreases text.len(),
{
    if text.len() == 0 {
        assert(text =~= Seq::empty());
    } else {
        let before = text.drop_last();
        assert(text[text.len() - 1] == text.last());
        assert(!before.contains(separator)) by {
            if before.contains(separator) {
                let i = choose|i: int| 0 <= i < before.len() && before[i] == separator;
                assert(text[i] == separator);
            }
        }
        lemma_split_plain(before, separator);
        assert(before.push(text.last()) =~= text);
        assert(split_on(text, separator, None) =~= seq![text]);
    }
}

/// No piece holds the separator.
pub proof fn lemma_pieces_clean(text: Seq<char>, separator: char)
    ensures
        split_on(text, separator, None).len() >= 1,
        forall|i: int|
            0 <= i < split_on(text, separator, None).len() ==> !(#[trigger] split_on(
                text,
                separator,
                None,
            )[i]).contains(separator),
    decreases text.len(),
{
    let pieces = split_on(text, separator, None);
    if text.len() > 0 {
        let before = split_on(text.drop_last(), separator, None);
        lemma_pieces_clean(text.drop_last(), separator);
        assert forall|i: int| 0 <= i < pieces.len() implies !(#[trigger] pieces[i]).contains(
            separator,
        ) by {
            if text.last() != separator && i == pieces.len() - 1 {
                let grown = before.last().push(text.last());
                assert(pieces[i] == grown);
                assert(!before[before.len() - 1].contains(separator));
                if grown.contains(separator) {
                    let k = choose|k: int| 0 <= k < grown.len() && grown[k] == separator;
                    assert(before.last()[k] == separator);
                }
            } else if i < before.len() {
                assert(pieces[i] == before[i]);
            }
        }
    }
}

/// The pieces with `separator` between them.
pub open spec fn rejoined(pieces: Seq<Seq<char>>, separator: char) -> Seq<char>
    decreases pieces.len(),
{
    if pieces.len() == 0 {
        Seq::empty()
    } else if pieces.len() == 1 {
        pieces[0]
    } else {
        rejoined(pieces.drop_last(), separator).push(separator) + pieces.last()
    }
}

/// The pieces with the separator between them are the text again. No piece
/// holds the separator, but for the last one where the limit was reached, and
/// there are never more pieces than the limit.
pub proof fn law_pieces_rejoin(text: Seq<char>, separator: char, limit: Option<usize>)
    requires
        limit is Some ==> limit->0 > 0,
    ensures
        ({
            let pieces = split_on(text, separator, limit);
            &&& pieces.len() >= 1
            &&& rejoined(pieces, separator) == text
            &&& limit is Some ==> pieces.len() <= limit->0
            &&& forall|i: int|
                0 <= i < pieces.len() && (limit is None || pieces.len() < limit->0 || i
                    < pieces.len() - 1) ==> !(#[trigger] pieces[i]).contains(separator)
        }),
    decreases text.len(),
{
    let pieces = split_on(text, separator, limit);
    if text.len() == 0 {
        assert(text =~= Seq::empty());
        assert(pieces[0] =~= Seq::empty());
    } else {
        let before = split_on(text.drop_last(), separator, limit);
        let c = text.last();
        law_pieces_rejoin(text.drop_last(), separator, limit);
        if c == separator && (limit is None || before.len() < limit->0) {
            assert(pieces.drop_last() =~= before);
            assert(rejoined(pieces, separator) =~= rejoined(before, separator).push(separator));
        } else {
            let last = before.last();
            assert(before.drop_last() =~= pieces.drop_last());
            assert(pieces.last() == last.push(c));
            assert(rejoined(pieces, separator) =~= rejoined(before, separator).push(c));
            if c != separator && last.push(c).contains(separator) {
                let k = choose|k: int| 0 <= k < last.push(c).len() && last.push(c)[k] == separator;
                assert(last[k] == separator);
                assert(last.contains(separator));
                assert(before[before.len() - 1] == last);
            }
        }
        assert forall|i: int|
            0 <= i < pieces.len() && (limit is None || pieces.len() < limit->0 || i < pieces.len()
                - 1) implies !(#[trigger] pieces[i]).contains(separator) by {
            if i < pieces.len() - 1 {
                assert(pieces[i] == before[i]);
            }
        }
        assert(text.drop_last().push(c) =~= text);
    }
}

/// What stands before the first separator is the first piece.
pub proof fn lemma_first_piece(text: Seq<char>, part: Seq<char>, separator: char)
    requires
        !part.contains(separator),
        text == part || (part.len() < text.len() && text.take(part.len() as int) == part
            && text[part.len() as int] == separator),
    ensures
        split_on(text, separator, None)[0] == part,
    decreases text.len(),
{
    let n = part.len() as int;
    if text == part {
        lemma_split_plain(text, separator);
    } else {
        let before = text.drop_last();
        lemma_pieces_clean(before, separator);
        if before.len() == n {
            assert(before =~= text.take(n));
        } else {
            assert(before.take(n) =~= text.take(n));
            assert(before[n] == text[n]);
        }
        lemma_first_piece(before, part, separator);
        if before.len() > n && split_on(before, separator, None).len() == 1 {
            law_pieces_rejoin(before, separator, None);
            assert(before.contains(separator)) by {
                assert(before[n] == separator);
            }
        }
    }
}

/// Trimming takes white space off both ends and nothing else: what remains has
/// none at either end.
pub proof fn law_trimming_takes_white_space(text: Seq<char>)
    ensures
        exists|from: int, to: int|
            #![trigger text.subrange(from, to)]
            0 <= from <= to <= text.len() && trimmed(text) == text.subrange(from, to) && (forall|
                i: int,
            |
                0 <= i < from || to <= i < text.len() ==> is_white(#[trigger] text[i])) && (from
                < to ==> !is_white(text[from]) && !is_white(text[to - 1])),
{
    let from = lemma_trimmed_start(text);
    let rest = trimmed_start(text);
    let len = lemma_trimmed_end(rest);
    let to = from + len;
    assert(trimmed(text) =~= text.subrange(from, to));
    assert forall|i: int| 0 <= i < from || to <= i < text.len() implies is_white(
        #[trigger] text[i],
    ) by {
        if to <= i {
            assert(rest[i - from] == text[i]);
        }
    }
    if from < to {
        assert(rest[0] == text[from]);
        assert(rest[len - 1] == text[to - 1]);
    }
}

proof fn lemma_trimmed_start(text: Seq<char>) -> (from: int)
    ensures
        0 <= from <= text.len(),
        trimmed_start(text) == text.skip(from),
        forall|i: int| 0 <= i < from ==> is_white(#[trigger] text[i]),
        from < text.len() ==> !is_white(text[from]),
    decreases text.len(),
{
    if text.len() > 0 && is_white(text[0]) {
        let from = lemma_trimmed_start(text.skip(1));
        assert(text.skip(1).skip(from) =~= text.skip(from + 1));
        assert forall|i: int| 0 <= i < from + 1 implies is_white(#[trigger] text[i]) by {
            if i > 0 {
                assert(text.skip(1)[i - 1] == text[i]);
            }
        }
        from + 1
    } else {
        assert(text.skip(0) =~= text);
        0
    }
}

proof fn lemma_trimmed_end(text: Seq<char>) -> (to: int)
    ensures
        0 <= to <= text.len(),
        trimmed_end(text) == text.take(to),
        forall|i: int| to <= i < text.len() ==> is_white(#[trigger] text[i]),
        0 < to ==> !is_white(text[to - 1]),
    decreases text.len(),
{
    if text.len() > 0 && is_white(text.last()) {
        let to = lemma_trimmed_end(text.drop_last());
        assert(text.drop_last().take(to) =~= text.take(to));
        assert forall|i: int| to <= i < text.len() implies is_white(#[trigger] text[i]) by {
            if i < text.len() - 1 {
                assert(text.drop_last()[i] == text[i]);
            }
        }
        to
    } else {
        assert(text.take(text.len() as int) =~= text);
        text.len() as int
    }
}

/// Of the ASCII characters, the space and those from tab to carriage return are
/// white space.
pub proof fn law_ascii_white_space(c: char)
    requires
        c as u32 <= 0x7f,
    ensures
        is_white(c) <==> c == ' ' || c == '\t' || c == '\n' || c == '\r' || c as u32 == 0x0b
            || c as u32 == 0x0c,
{
}

/// Lower case keeps the length and every character but the letters from A to Z,
/// which become those that stand as far from a as they stand from A.
pub proof fn law_lowering_changes_capitals_only(text: Seq<char>, i: int)
    requires
        0 <= i < text.len(),
    ensures
        lowered(text).len() == text.len(),
        'A' <= text[i] <= 'Z' ==> 'a' <= lowered(text)[i] <= 'z' && lowered(text)[i] as int
            - 'a' as int == text[i] as int - 'A' as int,
        !('A' <= text[i] <= 'Z') ==> lowered(text)[i] == text[i],
{
}

/// A text comes before another where it is a proper beginning of it, or where
/// it has the smaller character at the first place in which they differ.
pub proof fn law_order_is_by_the_first_difference(a: Seq<char>, b: Seq<char>, at: int)
    requires
        0 <= at <= a.len(),
        at <= b.len(),
        a.take(at) == b.take(at),
        at < a.len() && at < b.len() ==> a[at] != b[at],
    ensures
        precedes(a, b) <==> at < b.len() && (at == a.len() || a[at] < b[at]),
    decreases at,
{
    if at > 0 {
        assert(a[0] == a.take(at)[0] && b[0] == b.take(at)[0]);
        assert(a.skip(1).take(at - 1) =~= a.take(at).skip(1));
        assert(b.skip(1).take(at - 1) =~= b.take(at).skip(1));
        law_order_is_by_the_first_difference(a.skip(1), b.skip(1), at - 1);
    }
}

/// A number has at least one digit behind an optional sign, and nothing else. A
/// minus sign changes the sign of what the digits alone write, a plus sign
/// nothing, and another digit at the end makes ten times as much and its own
/// value more.
pub proof fn law_numbers_are_signed_decimals(digits: Seq<char>, n: i32, d: u8)
    requires
        number(digits) == Some(n),
        digits[0] != '-' && digits[0] != '+',
        d <= 9,
    ensures
        0 <= n,
        number(seq!['-'] + digits) == Some((-n) as i32),
        number(seq!['+'] + digits) == Some(n),
        n * 10 + d <= i32::MAX ==> number(digits.push(('0' as u8 + d) as u8 as char)) == Some(
            (n * 10 + d) as i32,
        ),
        forall|i: int| 0 <= i < digits.len() ==> '0' <= #[trigger] digits[i] <= '9',
{
    assert((seq!['-'] + digits).skip(1) =~= digits);
    assert((seq!['+'] + digits).skip(1) =~= digits);
    let c = ('0' as u8 + d) as u8 as char;
    let longer = digits.push(c);
    assert(longer.drop_last() =~= digits);
    assert(longer[0] == digits[0]);
    assert(is_digit(c));
    assert(all_digits(longer)) by {
        assert forall|i: int| 0 <= i < longer.len() implies is_digit(#[trigger] longer[i]) by {
            if i < digits.len() {
                assert(longer[i] == digits[i]);
            }
        }
    }
    assert(digits_value(longer) == n * 10 + d);
    assert forall|i: int| 0 <= i < digits.len() implies '0' <= #[trigger] digits[i] <= '9' by {
        assert(is_digit(digits[i]));
    }
}

/// Behind a sign there has to be a number without one, and what is too large is
/// no number.
pub proof fn law_numbers_end(text: Seq<char>, digits: Seq<char>, n: i32, d: u8)
    requires
        number(digits) == Some(n),
        digits[0] != '-' && digits[0] != '+',
        d <= 9,
    ensures
        text.len() > 0 && (text[0] == '-' || text[0] == '+') && number(text) is Some ==> text.len()
            > 1 && forall|i: int| 0 < i < text.len() ==> '0' <= #[trigger] text[i] <= '9',
        n * 10 + d > i32::MAX ==> number(digits.push(('0' as u8 + d) as u8 as char)) is None,
{
    let c = ('0' as u8 + d) as u8 as char;
    let longer = digits.push(c);
    assert(longer.drop_last() =~= digits);
    assert(longer[0] == digits[0]);
    assert(digits_value(longer) == n * 10 + d);
    if text.len() > 0 && (text[0] == '-' || text[0] == '+') && number(text) is Some {
        assert forall|i: int| 0 < i < text.len() implies '0' <= #[trigger] text[i] <= '9' by {
            assert(text.skip(1)[i - 1] == text[i]);
            assert(is_digit(text.skip(1)[i - 1]));
        }
    }
}

/// One digit alone writes its value, and neither nothing nor a sign alone
/// writes a number.
pub proof fn law_one_digit_is_its_value(c: char)
    ensures
        number(seq![c]) == if '0' <= c <= '9' {
            Some((c as int - '0' as int) as i32)
        } else {
            None
        },
        number(Seq::empty()) is None,
{
    let one = seq![c];
    assert(one.drop_last() =~= Seq::empty());
    assert(one[0] == c);
    reveal_with_fuel(digits_value, 2);
    if c == '-' || c == '+' {
        assert(one.skip(1).len() == 0);
    } else if !is_digit(c) {
        assert(!all_digits(one));
    } else {
        assert(all_digits(one));
        assert(digits_value(one) == (c as u8 - '0' as u8) as nat);
    }
}

/// A separator between two texts without it makes two pieces.
pub proof fn law_split_in_two(a: Seq<char>, b: Seq<char>, separator: char)
    requires
        !a.contains(separator),
        !b.contains(separator),
    ensures
        split_on(a.push(separator) + b, separator, None) == seq![a, b],
    decreases b.len(),
{
    let text = a.push(separator) + b;
    if b.len() == 0 {
        assert(text =~= a.push(separator));
        assert(text.drop_last() =~= a);
        lemma_split_plain(a, separator);
        assert(b =~= Seq::empty());
        assert(split_on(text, separator, None) =~= seq![a, b]);
    } else {
        let before = b.drop_last();
        assert(b[b.len() - 1] == b.last());
        assert(!before.contains(separator)) by {
            if before.contains(separator) {
                let i = choose|i: int| 0 <= i < before.len() && before[i] == separator;
                assert(b[i] == separator);
            }
        }
        law_split_in_two(a, before, separator);
        assert(text.drop_last() =~= a.push(separator) + before);
        assert(before.push(b.last()) =~= b);
        assert(split_on(text, separator, None) =~= seq![a, b]);
    }
}

/// No number's text holds a character that is neither a digit nor a minus sign.
pub proof fn lemma_decimal_without(n: int, c: char)
    requires
        !is_digit(c),
        c != '-',
    ensures
        !decimal(n).contains(c),
{
    lemma_decimal_ends(n);
}

// ---------------------------------------------------------------------------
// Executable operations
// ---------------------------------------------------------------------------

/// The characters of `text`.
pub fn chars_of(text: &str) -> (chars: Vec<char>)
    ensures
        chars@ == text@,
{
    let mut chars: Vec<char> = Vec::new();
    for c in it: text.chars()
        invariant
            chars@ == it.seq().take(it.index()),
            it.seq() == text@,
    {
        chars.push(c);
        assert(chars@ =~= it.seq().take(it.index() + 1));
    }
    assert(chars@ =~= text@);
    chars
}

/// The string made of `chars`.
pub fn text_of(chars: &[char]) -> (text: String)
    ensures
        text@ == chars@,
{
    let mut text: String = String::new();
    let mut i: usize = 0;
    while i < chars.len()
        invariant
            i <= chars@.len(),
            text@ == chars@.take(i as int),
        decreases chars@.len() - i,
    {
        text.push(chars[i]);
        i += 1;
        assert(text@ =~= chars@.take(i as int));
    }
    assert(text@ =~= chars@);
    text
}

/// The string made of the characters from `from` up to `to`.
pub fn piece_of(chars: &[char], from: usize, to: usize) -> (text: String)
    requires
        from <= to <= chars@.len(),
    ensures
        text@ == chars@.subrange(from as int, to as int),
{
    text_of(vstd::slice::slice_subrange(chars, from, to))
}

/// `first` followed by `second`.
pub fn concat(first: &str, second: &str) -> (text: String)
    ensures
        text@ == first@ + second@,
{
    let mut text: String = first.to_owned();
    text.append(second);
    text
}

/// Whether two strings are equal.
pub fn same(a: &str, b: &str) -> (r: bool)
    ensures
        r == (a@ == b@),
{
    let x = chars_of(a);
    let y = chars_of(b);
    if x.len() != y.len() {
        return false;
    }
    let mut i: usize = 0;
    while i < x.len()
        invariant
            i <= x@.len(),
            x@.len() == y@.len(),
            x@ == a@,
            y@ == b@,
            forall|k: int| 0 <= k < i ==> x@[k] == y@[k],
        decreases x@.len() - i,
    {
        if x[i] != y[i] {
            return false;
        }
        i += 1;
    }
    assert(x@ =~= y@);
    true
}

/// Splits `text` at every `separator`, into at most `limit` pieces where there
/// is a limit.
pub fn split(text: &str, separator: char, limit: Option<usize>) -> (pieces: Vec<String>)
    ensures
        views(pieces@) == split_on(text@, separator, limit),
        pieces@.len() >= 1,
        limit is None ==> forall|i: int, k: int|
            0 <= i < pieces@.len() && 0 <= k < pieces@[i]@.len() ==> pieces@[i]@[k] != separator,
        pieces@.len() <= text@.len() + 1,
{
    let chars = chars_of(text);
    let mut pieces: Vec<String> = Vec::new();
    let mut current: String = String::new();
    let mut i: usize = 0;
    assert(chars@.take(0) =~= Seq::<char>::empty());
    assert(views(pieces@).push(current@) =~= seq![Seq::<char>::empty()]);
    while i < chars.len()
        invariant
            i <= chars@.len(),
            chars@ == text@,
            pieces@.len() <= i,
            views(pieces@).push(current@) == split_on(chars@.take(i as int), separator, limit),
            limit is None ==> forall|k: int| 0 <= k < current@.len() ==> current@[k] != separator,
            limit is None ==> forall|j: int, k: int|
                0 <= j < pieces@.len() && 0 <= k < pieces@[j]@.len() ==> pieces@[j]@[k]
                    != separator,
        decreases chars@.len() - i,
    {
        let c = chars[i];
        let ghost before = split_on(chars@.take(i as int), separator, limit);
        assert(chars@.take(i + 1).drop_last() =~= chars@.take(i as int));
        let open: bool = match limit {
            None => true,
            Some(most) => pieces.len() + 1 < most,
        };
        if c == separator && open {
            let ghost old_pieces = pieces@;
            let ghost old_current = current@;
            pieces.push(current);
            current = String::new();
            assert(views(pieces@) =~= views(old_pieces).push(old_current));
            assert(views(pieces@).push(current@) =~= before.push(Seq::empty()));
        } else {
            let ghost old_current = current@;
            current.push(c);
            assert(before.drop_last() =~= views(pieces@));
            assert(views(pieces@).push(current@) =~= before.drop_last().push(
                before.last().push(c),
            ));
        }
        i += 1;
    }
    assert(chars@.take(i as int) =~= text@);
    let ghost old_pieces = pieces@;
    let ghost old_current = current@;
    pieces.push(current);
    assert(views(pieces@) =~= views(old_pieces).push(old_current));
    pieces
}

fn white(c: char) -> (r: bool)
    ensures
        r == is_white(c),
{
    let n: u32 = c as u32;
    (0x09 <= n && n <= 0x0d) || n == 0x20 || n == 0x85 || n == 0xa0 || n == 0x1680 || (0x2000 <= n
        && n <= 0x200a) || n == 0x2028 || n == 0x2029 || n == 0x202f || n == 0x205f || n == 0x3000
}

/// `text` without the white space at either end.
pub fn trim(text: &str) -> (r: String)
    ensures
        r@ == trimmed(text@),
{
    let chars = chars_of(text);
    let mut from: usize = 0;
    assert(chars@.skip(0) =~= chars@);
    while from < chars.len() && white(chars[from])
        invariant
            from <= chars@.len(),
            trimmed_start(chars@) == trimmed_start(chars@.skip(from as int)),
        decreases chars@.len() - from,
    {
        assert(chars@.skip(from as int).skip(1) =~= chars@.skip(from + 1));
        from += 1;
    }
    let ghost rest = chars@.skip(from as int);
    assert(rest == trimmed_start(chars@));
    let mut to: usize = chars.len();
    assert(rest =~= chars@.subrange(from as int, to as int));
    while to > from && white(chars[to - 1])
        invariant
            from <= to <= chars@.len(),
            trimmed_end(rest) == trimmed_end(chars@.subrange(from as int, to as int)),
        decreases to,
    {
        assert(chars@.subrange(from as int, to as int).drop_last() =~= chars@.subrange(
            from as int,
            to - 1,
        ));
        to -= 1;
    }
    piece_of(chars.as_slice(), from, to)
}

/// `text` without the occurrences of `c` at its end.
pub fn trim_end_matches(text: &str, c: char) -> (r: String)
    ensures
        r@ == without_trailing(text@, c),
{
    let chars = chars_of(text);
    let mut to: usize = chars.len();
    assert(chars@.subrange(0, to as int) =~= chars@);
    while to > 0 && chars[to - 1] == c
        invariant
            to <= chars@.len(),
            without_trailing(chars@, c) == without_trailing(chars@.subrange(0, to as int), c),
        decreases to,
    {
        assert(chars@.subrange(0, to as int).drop_last() =~= chars@.subrange(0, to - 1));
        to -= 1;
    }
    piece_of(chars.as_slice(), 0, to)
}

fn to_lower_char(c: char) -> (r: char)
    ensures
        r == lower_char(c),
{
    if 'A' <= c && c <= 'Z' {
        (c as u8 + 32) as char
    } else {
        c
    }
}

/// `text` with the ASCII letters `A` to `Z` made lower case.
pub fn to_lower(text: &str) -> (r: String)
    ensures
        r@ == lowered(text@),
{
    let chars = chars_of(text);
    let mut r: String = String::new();
    let mut i: usize = 0;
    while i < chars.len()
        invariant
            i <= chars@.len(),
            r@ == lowered(chars@).take(i as int),
        decreases chars@.len() - i,
    {
        r.push(to_lower_char(chars[i]));
        i += 1;
        assert(r@ =~= lowered(chars@).take(i as int));
    }
    assert(r@ =~= lowered(text@));
    r
}

/// `text` with every `from` turned into `to`.
pub fn replace(text: &str, from: char, to: char) -> (r: String)
    ensures
        r@ == replaced(text@, from, to),
{
    let chars = chars_of(text);
    let mut r: String = String::new();
    let mut i: usize = 0;
    while i < chars.len()
        invariant
            i <= chars@.len(),
            r@ == replaced(chars@, from, to).take(i as int),
        decreases chars@.len() - i,
    {
        let c: char = if chars[i] == from {
            to
        } else {
            chars[i]
        };
        r.push(c);
        i += 1;
        assert(r@ =~= replaced(chars@, from, to).take(i as int));
    }
    assert(r@ =~= replaced(text@, from, to));
    r
}

/// Whether `pattern` stands in `text` at `at`.
fn matches_at(text: &[char], pattern: &[char], at: usize) -> (r: bool)
    requires
        at + pattern@.len() <= text@.len(),
    ensures
        r == stands_at(text@, pattern@, at as int),
{
    let size: usize = text.len();
    let mut k: usize = 0;
    let ghost window = text@.subrange(at as int, at + pattern@.len());
    while k < pattern.len()
        invariant
            k <= pattern@.len(),
            at + pattern@.len() <= text@.len() == size,
            window == text@.subrange(at as int, at + pattern@.len()),
            forall|j: int| 0 <= j < k ==> window[j] == pattern@[j],
        decreases pattern@.len() - k,
    {
        if text[at + k] != pattern[k] {
            assert(window[k as int] != pattern@[k as int]);
            return false;
        }
        k += 1;
    }
    assert(window =~= pattern@);
    true
}

/// Whether `text` starts with `prefix`.
pub fn has_prefix(text: &str, prefix: &str) -> (r: bool)
    ensures
        r == starts_with(text@, prefix@),
{
    let t = chars_of(text);
    let p = chars_of(prefix);
    if p.len() > t.len() {
        return false;
    }
    assert(t@.take(p@.len() as int) =~= t@.subrange(0, p@.len() as int));
    matches_at(t.as_slice(), p.as_slice(), 0)
}

/// Whether `text` ends with `suffix`.
pub fn has_suffix(text: &str, suffix: &str) -> (r: bool)
    ensures
        r == ends_with(text@, suffix@),
{
    let t = chars_of(text);
    let p = chars_of(suffix);
    if p.len() > t.len() {
        return false;
    }
    let at: usize = t.len() - p.len();
    assert(t@.skip(at as int) =~= t@.subrange(at as int, at + p@.len()));
    matches_at(t.as_slice(), p.as_slice(), at)
}

/// Whether `pattern` stands somewhere in `text`.
pub fn has(text: &str, pattern: &str) -> (r: bool)
    ensures
        r == contains(text@, pattern@),
{
    let t = chars_of(text);
    let p = chars_of(pattern);
    if p.len() > t.len() {
        return false;
    }
    let last: usize = t.len() - p.len();
    let mut at: usize = 0;
    while at <= last
        invariant
            last == t@.len() - p@.len(),
            at <= last + 1,
            t@ == text@,
            p@ == pattern@,
            forall|k: int| 0 <= k < at ==> !stands_at(t@, p@, k),
        decreases last + 1 - at,
    {
        if matches_at(t.as_slice(), p.as_slice(), at) {
            return true;
        }
        if at == last {
            assert(!contains(text@, pattern@));
            return false;
        }
        at += 1;
    }
    false
}

/// The text after its first `from` characters.
pub fn rest_of(text: &str, from: usize) -> (r: String)
    requires
        from <= text@.len(),
    ensures
        r@ == text@.skip(from as int),
{
    let chars = chars_of(text);
    assert(chars@.skip(from as int) =~= chars@.subrange(from as int, chars@.len() as int));
    piece_of(chars.as_slice(), from, chars.len())
}

/// The position of the last `c`, if there is one.
pub fn rfind(text: &[char], c: char) -> (r: Option<usize>)
    ensures
        match r {
            Some(at) => last_position(text@, c) == Some(at as int) && at < text@.len(),
            None => last_position(text@, c) is None,
        },
{
    let mut i: usize = text.len();
    assert(text@.take(i as int) =~= text@);
    while i > 0
        invariant
            i <= text@.len(),
            last_position(text@, c) == last_position(text@.take(i as int), c),
        decreases i,
    {
        if text[i - 1] == c {
            return Some(i - 1);
        }
        assert(text@.take(i as int).drop_last() =~= text@.take(i - 1));
        i -= 1;
    }
    None
}

/// What follows the last `c` in `text`, or all of it where there is none.
pub fn tail_after(text: &str, c: char) -> (r: String)
    ensures
        r@ == after_last(text@, c),
{
    let chars = chars_of(text);
    let end: usize = chars.len();
    match rfind(chars.as_slice(), c) {
        Some(at) => {
            assert(chars@.skip(at + 1) =~= chars@.subrange(at + 1, end as int));
            piece_of(chars.as_slice(), at + 1, end)
        },
        None => text.to_owned(),
    }
}

/// How often `c` occurs in `text`.
pub fn count(text: &str, c: char) -> (r: usize)
    ensures
        r == count_of(text@, c),
{
    let chars = chars_of(text);
    let mut n: usize = 0;
    let mut i: usize = 0;
    assert(chars@.take(0) =~= Seq::<char>::empty());
    while i < chars.len()
        invariant
            i <= chars@.len(),
            n <= i,
            n == count_of(chars@.take(i as int), c),
        decreases chars@.len() - i,
    {
        assert(chars@.take(i + 1).drop_last() =~= chars@.take(i as int));
        if chars[i] == c {
            n += 1;
        }
        i += 1;
    }
    assert(chars@.take(i as int) =~= text@);
    n
}

/// Whether `a` comes before `b` in lexicographic order.
pub fn before(a: &str, b: &str) -> (r: bool)
    ensures
        r == precedes(a@, b@),
{
    let x = chars_of(a);
    let y = chars_of(b);
    let mut i: usize = 0;
    assert(x@.skip(0) =~= x@);
    assert(y@.skip(0) =~= y@);
    while i < y.len()
        invariant
            i <= x@.len(),
            i <= y@.len(),
            x@ == a@,
            y@ == b@,
            precedes(a@, b@) == precedes(x@.skip(i as int), y@.skip(i as int)),
        decreases y@.len() - i,
    {
        if i == x.len() {
            return true;
        }
        if x[i] != y[i] {
            return x[i] < y[i];
        }
        assert(x@.skip(i as int).skip(1) =~= x@.skip(i + 1));
        assert(y@.skip(i as int).skip(1) =~= y@.skip(i + 1));
        i += 1;
    }
    false
}

/// Appends `n` in decimal.
fn push_decimal(text: &mut String, n: u64)
    ensures
        final(text)@ == old(text)@ + decimal_nat(n as nat),
    decreases n,
{
    if n >= 10 {
        push_decimal(text, n / 10);
    }
    let d: u8 = (n % 10) as u8;
    text.push((d + 48) as char);
    assert(text@ =~= old(text)@ + decimal_nat(n as nat));
}

/// `n` in decimal.
pub fn unsigned_text(n: u64) -> (text: String)
    ensures
        text@ == decimal_nat(n as nat),
{
    let mut text: String = String::new();
    push_decimal(&mut text, n);
    assert(text@ =~= decimal_nat(n as nat));
    text
}

/// `n` in decimal.
pub fn decimal_text(n: i32) -> (text: String)
    ensures
        text@ == decimal(n as int),
{
    let mut text: String = String::new();
    if n < 0 {
        text.push('-');
        push_decimal(&mut text, (-(n as i64)) as u64);
        assert(text@ =~= decimal(n as int));
    } else {
        push_decimal(&mut text, n as u64);
        assert(text@ =~= decimal(n as int));
    }
    text
}

/// Reads a 32-bit number: an optional sign and at least one digit.
pub fn parse_number(text: &str) -> (r: Option<i32>)
    ensures
        r == number(text@),
{
    let chars = chars_of(text);
    let negative: bool = chars.len() > 0 && chars[0] == '-';
    let from: usize = if chars.len() > 0 && (chars[0] == '-' || chars[0] == '+') {
        1
    } else {
        0
    };
    let ghost digits = unsigned_part(text@);
    assert(digits =~= chars@.skip(from as int));
    if from == chars.len() {
        return None;
    }
    let mut value: u64 = 0;
    let mut too_large: bool = false;
    let mut i: usize = from;
    assert(digits.take(0) =~= Seq::<char>::empty());
    while i < chars.len()
        invariant
            from <= i <= chars@.len(),
            chars@ == text@,
            digits == chars@.skip(from as int),
            digits == unsigned_part(text@),
            value <= 0x1_0000_0000,
            forall|k: int| 0 <= k < i - from ==> is_digit(#[trigger] digits[k]),
            too_large ==> digits_value(digits.take(i - from)) > 0x1_0000_0000,
            !too_large ==> digits_value(digits.take(i - from)) == value,
        decreases chars@.len() - i,
    {
        let c = chars[i];
        assert(c == digits[i - from]);
        if c < '0' || c > '9' {
            assert(!all_digits(digits));
            return None;
        }
        let d: u64 = (c as u8 - 48) as u64;
        assert(digits.take(i - from + 1).drop_last() =~= digits.take(i - from));
        assert(digits.take(i - from + 1).last() == c);
        if !too_large {
            let next: u64 = value * 10 + d;
            if next > 0x1_0000_0000 {
                too_large = true;
            } else {
                value = next;
            }
        }
        i += 1;
    }
    assert(digits.take(i - from) =~= digits);
    assert(all_digits(digits));
    if too_large {
        return None;
    }
    if negative {
        if value <= 0x8000_0000 {
            Some((-(value as i64)) as i32)
        } else {
            None
        }
    } else if value <= 0x7fff_ffff {
        Some(value as i32)
    } else {
        None
    }
}

} // verus!

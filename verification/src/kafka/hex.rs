//! Bodies in hexadecimal: reading what was typed by hand, printing what was read.
//!
//! When sending, this is the only way to put into a topic bytes that neither a
//! text nor a loaded schema can express. Hex arrives here pasted out of a dump,
//! and dumps print it in many shapes: `1a2b3c`, `1a 2b 3c`, `1a:2b:3c`,
//! `1a-2b-3c`, `0x1a2b3c`.
//!
//! What is printed here is read back by `decode` without a single change.

use vstd::prelude::*;

use crate::strings::{
    chars_of, decimal, is_white, leading_white, lemma_trim_end_shrinks, push_decimal, trim, trim_of, trim_start_of,
};

verus! {

/// What may stand between bytes. The characters are listed one by one: skipping
/// whatever is not a digit would turn a typo such as `1g2b` into `12b`.
pub open spec fn is_separator(c: char) -> bool {
    c == ' ' || c == '\t' || c == '\n' || c == '\r' || c == ',' || c == ':' || c == '-'
}

/// The value of a hexadecimal digit of either case.
pub open spec fn hex_value(c: char) -> Option<u8> {
    if '0' <= c <= '9' {
        Some((c as u32 - 48) as u8)
    } else if 'a' <= c <= 'f' {
        Some((c as u32 - 87) as u8)
    } else if 'A' <= c <= 'F' {
        Some((c as u32 - 55) as u8)
    } else {
        None
    }
}

/// A digit and its position, counted from one.
pub struct Digit {
    pub position: usize,
    pub value: u8,
}

/// The digits of a text in order, or the first character that is neither a
/// digit nor a separator, with positions counted from `shift + 1`.
pub open spec fn scan(body: Seq<char>, shift: int) -> Result<Seq<(int, u8)>, (int, char)>
    decreases body.len(),
{
    if body.len() == 0 {
        Ok(Seq::empty())
    } else {
        match scan(body.drop_last(), shift) {
            Err(e) => Err(e),
            Ok(digits) => if is_separator(body.last()) {
                Ok(digits)
            } else {
                match hex_value(body.last()) {
                    Some(v) => Ok(digits.push((body.len() + shift, v))),
                    None => Err((body.len() + shift, body.last())),
                }
            },
        }
    }
}

/// The bytes that pairs of digits make.
pub open spec fn pair_up(digits: Seq<(int, u8)>) -> Seq<u8> {
    Seq::new(
        digits.len() / 2,
        |i: int| (16 * digits[2 * i].1 + digits[2 * i + 1].1) as u8,
    )
}

pub open spec fn has_prefix(text: Seq<char>) -> bool {
    text.len() >= 2 && text[0] == '0' && (text[1] == 'x' || text[1] == 'X')
}

/// How a character is printed between quotes, by its `Debug`.
pub uninterp spec fn quoted(c: char) -> Seq<char>;

pub open spec fn not_a_digit(c: char, position: int) -> Seq<char> {
    quoted(c) + " is not a hex digit (position "@ + decimal(position as nat) + ")"@
}

pub open spec fn odd_digits(count: int, position: int) -> Seq<char> {
    "odd number of hex digits ("@ + decimal(count as nat)
        + ") — one is missing a pair at position "@ + decimal(position as nat)
}

/// What a typed text stands for: bytes, or the message that says why not.
pub open spec fn decoded(text: Seq<char>) -> Result<Seq<u8>, Seq<char>> {
    let whole = trim_of(text);
    let lead = text.len() - trim_start_of(text).len();
    let (body, shift) = if has_prefix(whole) {
        (whole.skip(2), lead + 2)
    } else {
        (whole, lead)
    };
    match scan(body, shift) {
        Err((position, c)) => Err(not_a_digit(c, position)),
        Ok(digits) => if digits.len() % 2 != 0 {
            Err(odd_digits(digits.len() as int, digits.last().0))
        } else {
            Ok(pair_up(digits))
        },
    }
}

/// The `Debug` form of a character, as `format!` prints it.
#[verifier::external_body]
fn quote(c: char) -> (r: String)
    ensures
        r@ == quoted(c),
{
    format!("{c:?}")
}

fn digit_value(c: char) -> (r: Option<u8>)
    ensures
        r == hex_value(c),
        r is Some ==> r->0 < 16,
{
    let v: u32 = c as u32;
    if '0' <= c && c <= '9' {
        Some((v - 48) as u8)
    } else if 'a' <= c && c <= 'f' {
        Some((v - 87) as u8)
    } else if 'A' <= c && c <= 'F' {
        Some((v - 55) as u8)
    } else {
        None
    }
}

pub open spec fn digits_view(digits: Seq<Digit>) -> Seq<(int, u8)> {
    Seq::new(digits.len(), |i: int| (digits[i].position as int, digits[i].value))
}

/// Reads a hexadecimal text into bytes.
///
/// An error names a position in the text as it was typed, counted from one in
/// characters, with white space, prefix and separators included: that is where
/// a person looks for it.
pub fn decode(text: &str) -> (r: Result<Vec<u8>, String>)
    ensures
        match (r, decoded(text@)) {
            (Ok(bytes), Ok(expected)) => bytes@ == expected,
            (Err(e), Err(expected)) => e@ == expected,
            _ => false,
        },
{
    let chars = chars_of(text);
    let lead: usize = leading_white(chars.as_slice());
    let whole = trim(chars.as_slice());
    // The prefix is taken off the whole text only: `0x` before every byte is
    // another notation.
    let prefix: usize = if whole.len() >= 2 && whole[0] == '0' && (whole[1] == 'x' || whole[1]
        == 'X') {
        2
    } else {
        0
    };
    let ghost body = whole@.skip(prefix as int);
    let ghost shift = lead + prefix;
    proof {
        if prefix == 0 {
            assert(body =~= whole@);
        }
    }
    proof {
        lemma_trim_end_shrinks(trim_start_of(text@));
        assert(lead + whole@.len() <= chars.len());
    }
    let mut digits: Vec<Digit> = Vec::new();
    let mut i: usize = prefix;
    proof {
        assert(body.take(0) =~= Seq::empty());
        assert(digits_view(digits@) =~= Seq::empty());
    }
    while i < whole.len()
        invariant
            prefix <= i <= whole@.len(),
            lead + whole@.len() <= usize::MAX,
            body == whole@.skip(prefix as int),
            shift == lead + prefix,
            scan(body.take(i - prefix), shift as int) == Ok::<Seq<(int, u8)>, (int, char)>(
                digits_view(digits@),
            ),
            decoded(text@) == (match scan(body, shift as int) {
                Err((position, c)) => Err::<Seq<u8>, Seq<char>>(not_a_digit(c, position)),
                Ok(found) => if found.len() % 2 != 0 {
                    Err(odd_digits(found.len() as int, found.last().0))
                } else {
                    Ok(pair_up(found))
                },
            }),
            forall|k: int| 0 <= k < digits@.len() ==> (#[trigger] digits@[k]).value < 16,
        decreases whole@.len() - i,
    {
        let c = whole[i];
        let ghost next = body.take(i + 1 - prefix);
        let ghost before = digits_view(digits@);
        proof {
            assert(next.drop_last() =~= body.take(i - prefix));
            assert(next.last() == c);
        }
        let separator = c == ' ' || c == '\t' || c == '\n' || c == '\r' || c == ',' || c == ':' || c
            == '-';
        if !separator {
            match digit_value(c) {
                Some(value) => {
                    digits.push(Digit { position: lead + i + 1, value });
                    proof {
                        assert(digits_view(digits@) =~= before.push(((lead + i + 1) as int, value)));
                    }
                },
                None => {
                    proof {
                        lemma_scan_error_stays(body, shift as int, i + 1 - prefix);
                    }
                    let mut message = quote(c);
                    message.push_str(" is not a hex digit (position ");
                    push_decimal(&mut message, (lead + i + 1) as u64);
                    message.push_str(")");
                    return Err(message);
                },
            }
        }
        i += 1;
    }
    proof {
        assert(body.take(i - prefix) =~= body);
    }
    let ghost found = digits_view(digits@);
    let count: usize = digits.len();
    if count % 2 != 0 {
        let mut message = String::new();
        message.push_str("odd number of hex digits (");
        push_decimal(&mut message, count as u64);
        message.push_str(") — one is missing a pair at position ");
        push_decimal(&mut message, digits[count - 1].position as u64);
        proof {
            assert(message@ =~= odd_digits(found.len() as int, found.last().0));
        }
        return Err(message);
    }
    let mut bytes: Vec<u8> = Vec::new();
    let mut k: usize = 0;
    while k < count
        invariant
            count == digits@.len(),
            count % 2 == 0,
            k <= count,
            k % 2 == 0,
            found == digits_view(digits@),
            forall|j: int| 0 <= j < digits@.len() ==> (#[trigger] digits@[j]).value < 16,
            bytes@ == pair_up(found).take((k / 2) as int),
        decreases count - k,
    {
        let high: u8 = digits[k].value;
        let low: u8 = digits[k + 1].value;
        bytes.push(16 * high + low);
        proof {
            let half = (k / 2) as int;
            assert(2 * half == k);
            assert(pair_up(found)[half] == (16 * high + low) as u8);
            assert(pair_up(found).take(half + 1) =~= pair_up(found).take(half).push(
                (16 * high + low) as u8,
            ));
        }
        k += 2;
    }
    proof {
        assert(pair_up(found).take((k / 2) as int) =~= pair_up(found));
    }
    Ok(bytes)
}

/// An offending character found in a beginning of a text is the one found in
/// the whole of it.
proof fn lemma_scan_error_stays(body: Seq<char>, shift: int, upto: int)
    requires
        0 <= upto <= body.len(),
        scan(body.take(upto), shift) is Err,
    ensures
        scan(body, shift) == scan(body.take(upto), shift),
    decreases body.len() - upto,
{
    if upto == body.len() {
        assert(body.take(upto) =~= body);
    } else {
        assert(body.take(upto + 1).drop_last() =~= body.take(upto));
        lemma_scan_error_stays(body, shift, upto + 1);
    }
}

/// The upper-case hexadecimal digit of a number below sixteen.
pub open spec fn hex_digit(n: int) -> char {
    if n < 10 {
        (48 + n) as char
    } else {
        (55 + n) as char
    }
}

/// Bytes printed as pairs of upper-case digits with spaces between them.
pub open spec fn encoded(bytes: Seq<u8>) -> Seq<char>
    decreases bytes.len(),
{
    if bytes.len() == 0 {
        Seq::empty()
    } else {
        let head = encoded(bytes.drop_last());
        let start = if bytes.len() == 1 {
            head
        } else {
            head.push(' ')
        };
        start.push(hex_digit((bytes.last() / 16) as int)).push(
            hex_digit((bytes.last() % 16) as int),
        )
    }
}

fn digit_of(n: u8) -> (c: char)
    requires
        n < 16,
    ensures
        c == hex_digit(n as int),
{
    if n < 10 {
        (48 + n) as char
    } else {
        (55 + n) as char
    }
}

/// Prints bytes as pairs of upper-case digits with spaces: `0A 15 08 C8`.
///
/// The look of a dump, so that hex is seen to be bytes at first sight.
pub fn encode(bytes: &[u8]) -> (r: String)
    ensures
        r@ == encoded(bytes@),
{
    let mut out = String::new();
    let mut i: usize = 0;
    while i < bytes.len()
        invariant
            i <= bytes@.len(),
            out@ == encoded(bytes@.take(i as int)),
        decreases bytes@.len() - i,
    {
        let byte: u8 = bytes[i];
        if i > 0 {
            out.push(' ');
        }
        out.push(digit_of(byte / 16));
        out.push(digit_of(byte % 16));
        proof {
            assert(bytes@.take(i + 1).drop_last() =~= bytes@.take(i as int));
        }
        i += 1;
    }
    proof {
        assert(bytes@.take(i as int) =~= bytes@);
    }
    out
}

proof fn lemma_scan_encoded(bytes: Seq<u8>)
    ensures
        ({
            let s = encoded(bytes);
            &&& scan(s, 0) is Ok
            &&& scan(s, 0)->Ok_0.len() == 2 * bytes.len()
            &&& pair_up(scan(s, 0)->Ok_0) == bytes
            &&& s.len() > 0 <==> bytes.len() > 0
            &&& s.len() > 0 ==> !is_white(s[0]) && !is_white(s.last())
            &&& !has_prefix(s)
        }),
    decreases bytes.len(),
{
    if bytes.len() > 0 {
        let init = bytes.drop_last();
        lemma_scan_encoded(init);
        let s = encoded(bytes);
        let s1 = s.drop_last();
        let s2 = s1.drop_last();
        let high = (bytes.last() / 16) as int;
        let low = (bytes.last() % 16) as int;
        let head = encoded(init);
        let start = if bytes.len() == 1 {
            head
        } else {
            head.push(' ')
        };
        assert(s1 =~= start.push(hex_digit(high)));
        assert(s2 =~= start);
        if bytes.len() > 1 {
            assert(start.drop_last() =~= head);
        }
        let before = scan(head, 0)->Ok_0;
        assert(scan(start, 0) == scan(head, 0));
        assert(hex_value(hex_digit(high)) == Some(high as u8));
        assert(hex_value(hex_digit(low)) == Some(low as u8));
        assert(!is_separator(hex_digit(high)) && !is_separator(hex_digit(low)));
        assert(scan(s1, 0) == Ok::<Seq<(int, u8)>, (int, char)>(
            before.push((s1.len() as int, high as u8)),
        ));
        let after = scan(s, 0)->Ok_0;
        assert(after =~= before.push((s1.len() as int, high as u8)).push((s.len() as int, low as u8)));
        assert forall|i: int| 0 <= i < bytes.len() implies pair_up(after)[i] == bytes[i] by {
            if i < init.len() {
                assert(pair_up(before)[i] == init[i]);
            } else {
                assert(16 * high + low == bytes.last());
            }
        }
        assert(pair_up(after) =~= bytes);
    } else {
        assert(pair_up(scan(encoded(bytes), 0)->Ok_0) =~= bytes);
    }
}

/// What is printed reads back as the same bytes.
pub proof fn law_printed_reads_back(bytes: Seq<u8>)
    ensures
        decoded(encoded(bytes)) == Ok::<Seq<u8>, Seq<char>>(bytes),
{
    lemma_scan_encoded(bytes);
}

/// A byte is printed as two digits of upper case, the higher one first, and
/// between two bytes stands one blank; nothing else is printed.
pub proof fn law_how_bytes_are_printed(bytes: Seq<u8>, i: int)
    requires
        0 <= i < bytes.len(),
    ensures
        encoded(bytes).len() == 3 * bytes.len() - 1,
        encoded(bytes)[3 * i] == "0123456789ABCDEF"@[bytes[i] as int / 16],
        encoded(bytes)[3 * i + 1] == "0123456789ABCDEF"@[bytes[i] as int % 16],
        i < bytes.len() - 1 ==> encoded(bytes)[3 * i + 2] == ' ',
    decreases bytes.len(),
{
    reveal_strlit("0123456789ABCDEF");
    let init = bytes.drop_last();
    if bytes.len() == 1 {
        assert(encoded(init).len() == 0);
    } else if i < init.len() {
        law_how_bytes_are_printed(init, i);
    } else {
        law_how_bytes_are_printed(init, i - 1);
    }
}

/// The digits of sixteen, in either case, and no other character.
pub proof fn law_digits_of_sixteen(c: char, n: int)
    requires
        0 <= n < 16,
    ensures
        hex_value(c) == Some(n as u8) <==> c == "0123456789abcdef"@[n] || c
            == "0123456789ABCDEF"@[n],
        hex_value(c) matches Some(v) ==> v < 16,
{
    reveal_strlit("0123456789ABCDEF");
    reveal_strlit("0123456789abcdef");
}

/// What may stand between digits.
pub proof fn law_what_separates_digits(c: char)
    ensures
        is_separator(c) <==> " \t\n\r,:-"@.contains(c),
{
    reveal_strlit(" \t\n\r,:-");
    let s = " \t\n\r,:-"@;
    assert(s.len() == 7);
    assert(s[0] == ' ' && s[1] == '\t' && s[2] == '\n' && s[3] == '\r' && s[4] == ',' && s[5] == ':'
        && s[6] == '-');
}

proof fn lemma_scan_digits(text: Seq<char>, shift: int)
    requires
        forall|k: int| 0 <= k < text.len() ==> hex_value(#[trigger] text[k]) is Some,
    ensures
        scan(text, shift) is Ok,
        scan(text, shift)->Ok_0.len() == text.len(),
        forall|k: int|
            0 <= k < text.len() ==> (#[trigger] scan(text, shift)->Ok_0[k]).1 == hex_value(
                text[k],
            )->0,
    decreases text.len(),
{
    if text.len() > 0 {
        let init = text.drop_last();
        assert forall|k: int| 0 <= k < init.len() implies hex_value(#[trigger] init[k]) is Some by {
            assert(init[k] == text[k]);
        }
        lemma_scan_digits(init, shift);
        assert(hex_value(text[text.len() - 1]) is Some);
        assert(!is_separator(text.last()));
    }
}

proof fn lemma_whole(text: Seq<char>)
    requires
        text.len() > 0,
        !is_white(text[0]),
        !is_white(text.last()),
    ensures
        trim_of(text) == text,
        trim_start_of(text) == text,
{
}

/// Pairs of digits without anything between them are the bytes they spell, the
/// higher digit first.
pub proof fn law_pairs_of_digits(text: Seq<char>, i: int)
    requires
        text.len() % 2 == 0,
        0 <= 2 * i < text.len(),
        forall|k: int| 0 <= k < text.len() ==> hex_value(#[trigger] text[k]) is Some,
    ensures
        decoded(text) is Ok,
        decoded(text)->Ok_0.len() * 2 == text.len(),
        decoded(text)->Ok_0[i] == 16 * hex_value(text[2 * i])->0 + hex_value(text[2 * i + 1])->0,
{
    assert(hex_value(text[0]) is Some);
    assert(hex_value(text[1]) is Some);
    assert(hex_value(text[text.len() - 1]) is Some);
    lemma_whole(text);
    lemma_scan_digits(text, 0);
    let digits = scan(text, 0)->Ok_0;
    assert(hex_value(text[2 * i]) is Some && hex_value(text[2 * i + 1]) is Some);
    assert(digits[2 * i].1 == hex_value(text[2 * i])->0);
    assert(digits[2 * i + 1].1 == hex_value(text[2 * i + 1])->0);
}

proof fn lemma_scan_same_values(a: Seq<char>, c: char, b: Seq<char>, shift: int)
    requires
        is_separator(c),
        scan(a + b, shift) is Ok,
    ensures
        scan(a + seq![c] + b, shift) is Ok,
        scan(a + seq![c] + b, shift)->Ok_0.len() == scan(a + b, shift)->Ok_0.len(),
        forall|k: int|
            0 <= k < scan(a + b, shift)->Ok_0.len() ==> (#[trigger] scan(
                a + seq![c] + b,
                shift,
            )->Ok_0[k]).1 == scan(a + b, shift)->Ok_0[k].1,
    decreases b.len(),
{
    if b.len() == 0 {
        assert(a + b =~= a);
        assert(a + seq![c] + b =~= a.push(c));
        assert(a.push(c).drop_last() =~= a);
    } else {
        let init = b.drop_last();
        assert((a + b).drop_last() =~= a + init);
        assert((a + b).last() == b.last());
        assert((a + seq![c] + b).drop_last() =~= a + seq![c] + init);
        assert((a + seq![c] + b).last() == b.last());
        lemma_scan_same_values(a, c, init, shift);
    }
}

/// A separator between digits changes nothing: what can be read without it is
/// read the same with it, wherever it stands between the first two characters and
/// the last one.
pub proof fn law_separator_changes_nothing(a: Seq<char>, c: char, b: Seq<char>)
    requires
        is_separator(c),
        a.len() >= 2,
        b.len() > 0,
        !is_white(a[0]),
        !is_white(b.last()),
        decoded(a + b) is Ok,
    ensures
        decoded(a + seq![c] + b) == decoded(a + b),
{
    let text = a + b;
    let spaced = a + seq![c] + b;
    lemma_whole(text);
    lemma_whole(spaced);
    assert(has_prefix(text) == has_prefix(spaced));
    let (x, shift) = if has_prefix(text) {
        (a.skip(2), 2int)
    } else {
        (a, 0int)
    };
    if has_prefix(text) {
        assert(text.skip(2) =~= x + b);
        assert(spaced.skip(2) =~= x + seq![c] + b);
    }
    lemma_scan_same_values(x, c, b, shift);
    let p = scan(x + b, shift)->Ok_0;
    let q = scan(x + seq![c] + b, shift)->Ok_0;
    assert(pair_up(p) =~= pair_up(q));
}

/// The prefix of hexadecimal numbers is taken off once, in either case.
pub proof fn law_prefix_is_taken_off(text: Seq<char>, x: char)
    requires
        x == 'x' || x == 'X',
        text.len() > 0,
        !is_white(text[0]),
        !is_white(text.last()),
        !has_prefix(text),
        decoded(text) is Ok,
    ensures
        decoded(seq!['0', x] + text) == decoded(text),
{
    let whole = seq!['0', x] + text;
    lemma_whole(text);
    lemma_whole(whole);
    assert(whole.skip(2) =~= text);
    lemma_scan_shifted(text, 0, 2);
    let p = scan(text, 0)->Ok_0;
    let q = scan(text, 2)->Ok_0;
    assert(pair_up(p) =~= pair_up(q));
}

proof fn lemma_scan_shifted(text: Seq<char>, a: int, b: int)
    ensures
        scan(text, a) is Ok <==> scan(text, b) is Ok,
        scan(text, a) is Ok ==> scan(text, a)->Ok_0.len() == scan(text, b)->Ok_0.len() && forall|
            k: int,
        |
            0 <= k < scan(text, a)->Ok_0.len() ==> (#[trigger] scan(text, b)->Ok_0[k]).1 == scan(
                text,
                a,
            )->Ok_0[k].1,
    decreases text.len(),
{
    if text.len() > 0 {
        lemma_scan_shifted(text.drop_last(), a, b);
    }
}

/// A character that is neither a digit nor a separator is refused, the first one
/// of them by its place in the text, counted from one.
pub proof fn law_first_wrong_character_is_named(text: Seq<char>, at: int)
    requires
        0 <= at < text.len(),
        !is_white(text[0]),
        !is_white(text.last()),
        !has_prefix(text),
        hex_value(text[at]) is None,
        !is_separator(text[at]),
        forall|k: int|
            0 <= k < at ==> hex_value(#[trigger] text[k]) is Some || is_separator(text[k]),
    ensures
        decoded(text) == Err::<Seq<u8>, Seq<char>>(
            quoted(text[at]) + " is not a hex digit (position "@ + decimal((at + 1) as nat) + ")"@,
        ),
{
    lemma_whole(text);
    lemma_scan_good(text.take(at), 0);
    assert(text.take(at + 1).drop_last() =~= text.take(at));
    assert(text.take(at + 1).last() == text[at]);
    lemma_scan_error_stays(text, 0, at + 1);
}

proof fn lemma_scan_good(text: Seq<char>, shift: int)
    requires
        forall|k: int|
            0 <= k < text.len() ==> hex_value(#[trigger] text[k]) is Some || is_separator(text[k]),
    ensures
        scan(text, shift) is Ok,
    decreases text.len(),
{
    if text.len() > 0 {
        let init = text.drop_last();
        assert forall|k: int| 0 <= k < init.len() implies hex_value(#[trigger] init[k]) is Some
            || is_separator(init[k]) by {
            assert(init[k] == text[k]);
        }
        lemma_scan_good(init, shift);
        assert(hex_value(text[text.len() - 1]) is Some || is_separator(text[text.len() - 1]));
    }
}

/// An odd number of digits is refused, by their number and by the place of the
/// last one.
pub proof fn law_odd_digits_are_refused(text: Seq<char>)
    requires
        text.len() % 2 == 1,
        forall|k: int| 0 <= k < text.len() ==> hex_value(#[trigger] text[k]) is Some,
    ensures
        decoded(text) == Err::<Seq<u8>, Seq<char>>(
            "odd number of hex digits ("@ + decimal(text.len())
                + ") — one is missing a pair at position "@ + decimal(text.len()),
        ),
{
    assert(hex_value(text[0]) is Some);
    assert(text.len() >= 2 ==> hex_value(text[1]) is Some);
    assert(hex_value(text[text.len() - 1]) is Some);
    lemma_whole(text);
    lemma_scan_digits(text, 0);
    let init = text.drop_last();
    assert forall|k: int| 0 <= k < init.len() implies hex_value(#[trigger] init[k]) is Some by {
        assert(init[k] == text[k]);
    }
    lemma_scan_digits(init, 0);
}

} // verus!

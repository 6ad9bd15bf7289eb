//! Substring search over the raw bytes of messages.
//!
//! A query is prepared once, as a `Needle`, and the prepared needle then goes
//! over the messages: it knows its mode and does not choose it again for each
//! of them.
//!
//! Its other concern is white space. A body is shown formatted, with indents
//! and line breaks, and stored compact: `"key": "value",` copied from the
//! screen is `"key":"value",` in the topic, and would not be found literally.
//! So a needle has a second, loose form.

use vstd::prelude::*;
use vstd::slice::slice_subrange;
use vstd::utf8::{decode_utf8, encode_scalar, encode_utf8, is_ascii_chars, valid_utf8};

use crate::kafka::search::{
    holds_text, is_piece, leading_text, lemma_chars_are_a_piece, lemma_encode_concat,
    lemma_encode_step, lemma_piece_inside_or_behind, stands_at, width,
};
use crate::strings::{blank, chars_of, is_white, is_whitespace, string_of, trim_start_of};

verus! {

// ---------------------------------------------------------------------------
// Letters of either case
// ---------------------------------------------------------------------------
/// What a character becomes in lower case, by the tables of Unicode.
pub uninterp spec fn lowered(c: char) -> Seq<char>;

/// `char::to_lowercase` gives the lower-case form of a character.
#[verifier::external_body]
fn lower(c: char) -> (r: Vec<char>)
    ensures
        r@ == lowered(c),
{
    c.to_lowercase().collect()
}

/// Equal up to case, character by character: forms that expand, such as the
/// German sharp s and a double s, do not meet.
pub open spec fn folds(a: char, b: char) -> bool {
    a == b || lowered(a) == lowered(b)
}

/// An ASCII letter in lower case, any other byte as it is.
pub open spec fn ascii_lower(b: u8) -> u8 {
    if 65 <= b <= 90 {
        (b + 32) as u8
    } else {
        b
    }
}

pub open spec fn ascii_upper(b: u8) -> u8 {
    if 97 <= b <= 122 {
        (b - 32) as u8
    } else {
        b
    }
}

/// The needle stands in the haystack at a position, up to the case of ASCII
/// letters.
pub open spec fn ascii_stands_at(haystack: Seq<u8>, needle: Seq<u8>, at: int) -> bool {
    &&& 0 <= at
    &&& at + needle.len() <= haystack.len()
    &&& forall|k: int|
        0 <= k < needle.len() ==> ascii_lower(haystack[at + k]) == ascii_lower(#[trigger] needle[k])
}

/// Two texts are equal up to case.
pub open spec fn fold_equal(s: Seq<char>, t: Seq<char>) -> bool {
    s.len() == t.len() && forall|k: int| 0 <= k < t.len() ==> folds(s[k], #[trigger] t[k])
}

fn to_ascii_lower(b: u8) -> (r: u8)
    ensures
        r == ascii_lower(b),
{
    if 65 <= b && b <= 90 {
        b + 32
    } else {
        b
    }
}

fn to_ascii_upper(b: u8) -> (r: u8)
    ensures
        r == ascii_upper(b),
{
    if 97 <= b && b <= 122 {
        b - 32
    } else {
        b
    }
}

fn same_chars(a: &Vec<char>, b: &Vec<char>) -> (r: bool)
    ensures
        r == (a@ == b@),
{
    if a.len() != b.len() {
        return false;
    }
    let mut i: usize = 0;
    while i < a.len()
        invariant
            i <= a@.len(),
            a@.len() == b@.len(),
            forall|k: int| 0 <= k < i ==> a@[k] == b@[k],
        decreases a@.len() - i,
    {
        if a[i] != b[i] {
            return false;
        }
        i += 1;
    }
    proof {
        assert(a@ =~= b@);
    }
    true
}

/// Whether two characters are equal up to case.
pub fn eq_fold(a: char, b: char) -> (r: bool)
    ensures
        r == folds(a, b),
{
    if a == b {
        return true;
    }
    let x = lower(a);
    let y = lower(b);
    same_chars(&x, &y)
}

// ---------------------------------------------------------------------------
// The loose form of a query
// ---------------------------------------------------------------------------
/// A part of a loose query: text, or white space that is required or allowed.
pub enum Piece {
    Text(Vec<char>),
    Gap { required: bool },
}

/// What a part of a loose query says.
#[verifier::ext_equal]
pub enum Part {
    Text(Seq<char>),
    Gap(bool),
}

impl Piece {
    pub open spec fn part(&self) -> Part {
        match self {
            Piece::Text(t) => Part::Text(t@),
            Piece::Gap { required } => Part::Gap(*required),
        }
    }
}

pub open spec fn parts(pieces: Seq<Piece>) -> Seq<Part> {
    Seq::new(pieces.len(), |i: int| pieces[i].part())
}

/// The signs around which formatting of JSON puts white space as it likes.
pub open spec fn is_structural(c: char) -> bool {
    c == '{' || c == '}' || c == '[' || c == ']' || c == ':' || c == ','
}

/// How far a query is taken apart.
#[verifier::ext_equal]
pub struct Cut {
    pub parts: Seq<Part>,
    pub current: Seq<char>,
    pub in_string: bool,
    pub escaped: bool,
}

/// The text collected so far becomes a part.
pub open spec fn with_text(parts: Seq<Part>, current: Seq<char>) -> Seq<Part> {
    if current.len() > 0 {
        parts.push(Part::Text(current))
    } else {
        parts
    }
}

/// A gap joins the one before it. What is allowed to be absent for one reason
/// is allowed to be absent.
pub open spec fn with_gap(parts: Seq<Part>, required: bool) -> Seq<Part> {
    if parts.len() > 0 && parts.last() is Gap {
        parts.update(parts.len() - 1, Part::Gap(parts.last()->Gap_0 && required))
    } else {
        parts.push(Part::Gap(required))
    }
}

/// One character of a query. Inside a string literal everything is literal;
/// outside, white space is a required gap, and around a sign of JSON it is
/// allowed whether the query had it or not.
pub open spec fn cut_step(s: Cut, c: char) -> Cut {
    if s.in_string {
        Cut {
            parts: s.parts,
            current: s.current.push(c),
            in_string: s.escaped || c != '"',
            escaped: !s.escaped && c == '\\',
        }
    } else if c == '"' {
        Cut { parts: s.parts, current: s.current.push(c), in_string: true, escaped: s.escaped }
    } else if is_white(c) {
        Cut {
            parts: with_gap(with_text(s.parts, s.current), true),
            current: Seq::empty(),
            in_string: false,
            escaped: s.escaped,
        }
    } else if is_structural(c) {
        Cut {
            parts: with_gap(
                with_gap(with_text(s.parts, s.current), false).push(Part::Text(seq![c])),
                false,
            ),
            current: Seq::empty(),
            in_string: false,
            escaped: s.escaped,
        }
    } else {
        Cut { parts: s.parts, current: s.current.push(c), in_string: false, escaped: s.escaped }
    }
}

/// A query taken apart.
pub open spec fn cut(text: Seq<char>) -> Cut
    decreases text.len(),
{
    if text.len() == 0 {
        Cut { parts: Seq::empty(), current: Seq::empty(), in_string: false, escaped: false }
    } else {
        cut_step(cut(text.drop_last()), text.last())
    }
}

pub open spec fn no_first_gaps(parts: Seq<Part>) -> Seq<Part>
    decreases parts.len(),
{
    if parts.len() > 0 && parts[0] is Gap {
        no_first_gaps(parts.drop_first())
    } else {
        parts
    }
}

pub open spec fn no_last_gaps(parts: Seq<Part>) -> Seq<Part>
    decreases parts.len(),
{
    if parts.len() > 0 && parts.last() is Gap {
        no_last_gaps(parts.drop_last())
    } else {
        parts
    }
}

/// All parts of a query.
pub open spec fn whole_parts(text: Seq<char>) -> Seq<Part> {
    let done = cut(text);
    with_text(done.parts, done.current)
}

/// The parts of a query, without white space at its ends.
pub open spec fn query_parts(text: Seq<char>) -> Seq<Part> {
    no_last_gaps(no_first_gaps(whole_parts(text)))
}

pub open spec fn has_gap(parts: Seq<Part>) -> bool {
    exists|k: int| 0 <= k < parts.len() && #[trigger] parts[k] is Gap
}

/// A query that can be taken loosely: there is a place for white space in it, at
/// its ends too, and there is something besides.
pub open spec fn loosens(text: Seq<char>) -> bool {
    has_gap(whole_parts(text)) && query_parts(text).len() > 0
}

pub open spec fn same_letter(a: char, b: char, sensitive: bool) -> bool {
    if sensitive {
        a == b
    } else {
        folds(a, b)
    }
}

/// A text begins with another one.
pub open spec fn begins(s: Seq<char>, t: Seq<char>, sensitive: bool) -> bool {
    s.len() >= t.len() && forall|k: int|
        0 <= k < t.len() ==> same_letter(s[k], #[trigger] t[k], sensitive)
}

/// The parts can be read off the start of a text one after another, each gap
/// taking all the white space there is.
pub open spec fn eats(parts: Seq<Part>, s: Seq<char>, sensitive: bool) -> bool
    decreases parts.len(),
{
    if parts.len() == 0 {
        true
    } else {
        match parts[0] {
            Part::Text(t) => begins(s, t, sensitive) && eats(
                parts.drop_first(),
                s.skip(t.len() as int),
                sensitive,
            ),
            Part::Gap(required) => (required ==> trim_start_of(s).len() < s.len()) && eats(
                parts.drop_first(),
                trim_start_of(s),
                sensitive,
            ),
        }
    }
}

/// Whether a loose match may start with a character: where case is ignored and
/// the query starts with an ASCII character, only this one in either case will
/// do, not a foreign letter that merely folds to it.
pub open spec fn may_start(c: char, first: char, sensitive: bool) -> bool {
    sensitive || first as u32 >= 0x80 || (c as u32 <= 0x7f && ascii_lower(c as u8) == ascii_lower(
        first as u8,
    ))
}

/// A loose query matches at the start of a text.
pub open spec fn loose_at(parts: Seq<Part>, s: Seq<char>, sensitive: bool) -> bool {
    &&& s.len() > 0
    &&& may_start(s[0], parts[0]->Text_0[0], sensitive)
    &&& eats(parts, s, sensitive)
}

// ---------------------------------------------------------------------------
// What a query finds
// ---------------------------------------------------------------------------
/// The query stands in the bytes literally, or up to case.
pub open spec fn finds_exactly(text: Seq<char>, sensitive: bool, haystack: Seq<u8>) -> bool {
    if text.len() == 0 {
        true
    } else if sensitive {
        exists|at: int| stands_at(haystack, encode_utf8(text), at)
    } else if is_ascii_chars(text) {
        exists|at: int| ascii_stands_at(haystack, encode_utf8(text), at)
    } else {
        holds_text(haystack, |s: Seq<char>| fold_equal(s, text))
    }
}

/// The query stands in the bytes with other white space around the signs of
/// JSON, and without the white space at its ends.
pub open spec fn finds_loosely(text: Seq<char>, sensitive: bool, haystack: Seq<u8>) -> bool {
    loosens(text) && holds_text(
        haystack,
        |s: Seq<char>| loose_at(query_parts(text), s, sensitive),
    )
}

/// What a query finds.
pub open spec fn finds(text: Seq<char>, sensitive: bool, haystack: Seq<u8>) -> bool {
    finds_exactly(text, sensitive, haystack) || finds_loosely(text, sensitive, haystack)
}

// ---------------------------------------------------------------------------
// Taking a query apart
// ---------------------------------------------------------------------------
/// A query in which the white space around the signs of JSON is optional.
///
/// It works both ways: a formatted query is found in a compact body, and a
/// compact one in a formatted body. The inside of string literals is not
/// touched: a space within a string means something.
pub struct Loose {
    head: String,
    pieces: Vec<Piece>,
    sensitive: bool,
}

/// Parts that a match can be looked for: text at both ends, no empty text.
pub open spec fn searchable(p: Seq<Part>) -> bool {
    &&& p.len() > 0
    &&& p[0] is Text
    &&& p.last() is Text
    &&& forall|k: int|
        0 <= k < p.len() && #[trigger] p[k] is Text ==> p[k]->Text_0.len() > 0
}

pub open spec fn texts_not_empty(p: Seq<Part>) -> bool {
    forall|k: int| 0 <= k < p.len() && #[trigger] p[k] is Text ==> p[k]->Text_0.len() > 0
}

proof fn lemma_cut_texts(text: Seq<char>)
    ensures
        texts_not_empty(cut(text).parts),
    decreases text.len(),
{
    if text.len() > 0 {
        lemma_cut_texts(text.drop_last());
        let s = cut(text.drop_last());
        let c = text.last();
        let flushed = with_text(s.parts, s.current);
        assert(texts_not_empty(flushed));
        assert(texts_not_empty(with_gap(flushed, true)));
        assert(texts_not_empty(with_gap(flushed, false)));
        let signed = with_gap(flushed, false).push(Part::Text(seq![c]));
        assert(texts_not_empty(signed));
        assert(texts_not_empty(with_gap(signed, false)));
    }
}

proof fn lemma_strip(p: Seq<Part>)
    requires
        texts_not_empty(p),
    ensures
        texts_not_empty(no_last_gaps(no_first_gaps(p))),
        no_last_gaps(no_first_gaps(p)).len() > 0 ==> searchable(no_last_gaps(no_first_gaps(p))),
{
    lemma_strip_first(p);
    lemma_strip_last(no_first_gaps(p));
}

proof fn lemma_strip_first(p: Seq<Part>)
    requires
        texts_not_empty(p),
    ensures
        texts_not_empty(no_first_gaps(p)),
        no_first_gaps(p).len() > 0 ==> no_first_gaps(p)[0] is Text,
    decreases p.len(),
{
    if p.len() > 0 && p[0] is Gap {
        assert(texts_not_empty(p.drop_first()));
        lemma_strip_first(p.drop_first());
    }
}

proof fn lemma_strip_last(p: Seq<Part>)
    requires
        texts_not_empty(p),
        p.len() > 0 ==> p[0] is Text,
    ensures
        texts_not_empty(no_last_gaps(p)),
        no_last_gaps(p).len() > 0 ==> no_last_gaps(p)[0] is Text && no_last_gaps(p).last() is Text,
    decreases p.len(),
{
    if p.len() > 0 && p.last() is Gap {
        assert(texts_not_empty(p.drop_last()));
        lemma_strip_last(p.drop_last());
    }
}

/// Where something is left of a query, it has text at both ends.
pub proof fn lemma_query_searchable(text: Seq<char>)
    ensures
        query_parts(text).len() > 0 ==> searchable(query_parts(text)),
{
    lemma_cut_texts(text);
    assert(texts_not_empty(whole_parts(text)));
    lemma_strip(whole_parts(text));
}

fn flush(current: Vec<char>, pieces: &mut Vec<Piece>)
    ensures
        parts(final(pieces)@) == with_text(parts(old(pieces)@), current@),
{
    let ghost before = parts(pieces@);
    let ghost text = current@;
    if current.len() > 0 {
        pieces.push(Piece::Text(current));
        proof {
            assert(parts(pieces@) =~= before.push(Part::Text(text)));
        }
    }
}

/// Adds a gap, joining it with one that stands before it.
fn push_gap(pieces: &mut Vec<Piece>, required: bool)
    ensures
        parts(final(pieces)@) == with_gap(parts(old(pieces)@), required),
{
    let ghost before = parts(pieces@);
    let n: usize = pieces.len();
    if n > 0 {
        let had: Option<bool> = match &pieces[n - 1] {
            Piece::Gap { required } => Some(*required),
            Piece::Text(_) => None,
        };
        proof {
            assert(before[n - 1] == pieces@[n - 1].part());
        }
        if let Some(had) = had {
            pieces.set(n - 1, Piece::Gap { required: had && required });
            proof {
                assert(parts(pieces@) =~= before.update(n - 1, Part::Gap(had && required)));
            }
            return;
        }
    }
    pieces.push(Piece::Gap { required });
    proof {
        assert(parts(pieces@) =~= before.push(Part::Gap(required)));
    }
}

fn is_gap(piece: &Piece) -> (r: bool)
    ensures
        r == (piece.part() is Gap),
{
    match piece {
        Piece::Gap { .. } => true,
        Piece::Text(_) => false,
    }
}

impl Loose {
    pub closed spec fn wf(&self) -> bool {
        &&& searchable(parts(self.pieces@))
        &&& self.head@ == parts(self.pieces@)[0]->Text_0
    }

    pub closed spec fn parts(&self) -> Seq<Part> {
        parts(self.pieces@)
    }

    pub closed spec fn is_sensitive(&self) -> bool {
        self.sensitive
    }

    /// Takes a query apart. `None` when there is no place for white space in
    /// it: a second pass would repeat the first. White space at its ends is
    /// dropped: a line that was copied with its indent has to be found in a
    /// compact body.
    pub fn compile(text: &str, sensitive: bool) -> (r: Option<Self>)
        ensures
            r is Some <==> loosens(text@),
            r matches Some(loose) ==> loose.wf() && loose.parts() == query_parts(text@)
                && loose.is_sensitive() == sensitive,
    {
        let chars = chars_of(text);
        let mut pieces: Vec<Piece> = Vec::new();
        let mut current: Vec<char> = Vec::new();
        let mut in_string = false;
        let mut escaped = false;
        let mut i: usize = 0;
        proof {
            assert(parts(pieces@) =~= Seq::empty());
            assert(chars@.take(0) =~= Seq::empty());
        }
        while i < chars.len()
            invariant
                i <= chars@.len(),
                cut(chars@.take(i as int)) == (Cut {
                    parts: parts(pieces@),
                    current: current@,
                    in_string,
                    escaped,
                }),
            decreases chars@.len() - i,
        {
            let c = chars[i];
            proof {
                assert(chars@.take(i + 1).drop_last() =~= chars@.take(i as int));
            }
            if in_string {
                current.push(c);
                if escaped {
                    escaped = false;
                } else if c == '\\' {
                    escaped = true;
                } else if c == '"' {
                    in_string = false;
                }
            } else if c == '"' {
                in_string = true;
                current.push(c);
            } else if is_whitespace(c) {
                flush(current, &mut pieces);
                current = Vec::new();
                push_gap(&mut pieces, true);
            } else if c == '{' || c == '}' || c == '[' || c == ']' || c == ':' || c == ',' {
                flush(current, &mut pieces);
                current = Vec::new();
                push_gap(&mut pieces, false);
                let ghost before = parts(pieces@);
                let mut sign: Vec<char> = Vec::new();
                sign.push(c);
                proof {
                    assert(sign@ =~= seq![c]);
                }
                pieces.push(Piece::Text(sign));
                proof {
                    assert(parts(pieces@) =~= before.push(Part::Text(seq![c])));
                }
                push_gap(&mut pieces, false);
            } else {
                current.push(c);
            }
            i += 1;
        }
        proof {
            assert(chars@.take(i as int) =~= chars@);
        }
        flush(current, &mut pieces);
        let ghost all = parts(pieces@);
        proof {
            lemma_query_searchable(text@);
            assert(all == whole_parts(text@));
        }
        let mut found = false;
        let mut k: usize = 0;
        while k < pieces.len()
            invariant
                k <= pieces@.len(),
                found ==> has_gap(parts(pieces@)),
                !found ==> forall|j: int| 0 <= j < k ==> !(#[trigger] parts(pieces@)[j] is Gap),
            decreases pieces@.len() - k,
        {
            proof {
                assert(parts(pieces@)[k as int] == pieces@[k as int].part());
            }
            if is_gap(&pieces[k]) {
                found = true;
            }
            k += 1;
        }
        while pieces.len() > 0 && is_gap(&pieces[0])
            invariant
                no_first_gaps(parts(pieces@)) == no_first_gaps(all),
            decreases pieces@.len(),
        {
            let ghost before = parts(pieces@);
            proof {
                assert(before[0] == pieces@[0].part());
            }
            pieces.remove(0);
            proof {
                assert(parts(pieces@) =~= before.drop_first());
            }
        }
        proof {
            if pieces@.len() > 0 {
                assert(parts(pieces@)[0] == pieces@[0].part());
            }
            assert(parts(pieces@) == no_first_gaps(all));
        }
        while pieces.len() > 0 && is_gap(&pieces[pieces.len() - 1])
            invariant
                no_last_gaps(parts(pieces@)) == no_last_gaps(no_first_gaps(all)),
            decreases pieces@.len(),
        {
            let ghost before = parts(pieces@);
            proof {
                assert(before.last() == pieces@[pieces@.len() - 1].part());
            }
            pieces.pop();
            proof {
                assert(parts(pieces@) =~= before.drop_last());
            }
        }
        proof {
            if pieces@.len() > 0 {
                assert(parts(pieces@).last() == pieces@[pieces@.len() - 1].part());
            }
            assert(parts(pieces@) == query_parts(text@));
        }
        if !found || pieces.len() == 0 {
            return None;
        }
        let head = match &pieces[0] {
            Piece::Text(t) => string_of(t.as_slice()),
            Piece::Gap { .. } => String::new(),
        };
        proof {
            assert(parts(pieces@)[0] == pieces@[0].part());
        }
        Some(Loose { head, pieces, sensitive })
    }

    /// How far a piece of the query reaches in the text, if the text has it at
    /// a position.
    fn consume(&self, chars: &Vec<char>, at: usize, text: &Vec<char>) -> (r: Option<usize>)
        requires
            at <= chars@.len(),
        ensures
            r is Some <==> begins(chars@.skip(at as int), text@, self.sensitive),
            r matches Some(end) ==> end == at + text@.len() && end <= chars@.len(),
    {
        let total: usize = chars.len();
        if total - at < text.len() {
            return None;
        }
        let mut k: usize = 0;
        while k < text.len()
            invariant
                total == chars@.len(),
                at + text@.len() <= total,
                k <= text@.len(),
                forall|j: int|
                    0 <= j < k ==> same_letter(
                        chars@.skip(at as int)[j],
                        #[trigger] text@[j],
                        self.sensitive,
                    ),
            decreases text@.len() - k,
        {
            let same = if self.sensitive {
                chars[at + k] == text[k]
            } else {
                eq_fold(chars[at + k], text[k])
            };
            if !same {
                proof {
                    assert(chars@.skip(at as int)[k as int] == chars@[at + k]);
                    assert(!same_letter(chars@.skip(at as int)[k as int], text@[k as int], self.sensitive));
                }
                return None;
            }
            k += 1;
        }
        Some(at + text.len())
    }

    /// Whether the parts can be read off the text from a position on.
    fn matches_at(&self, chars: &Vec<char>, start: usize) -> (r: bool)
        requires
            start <= chars@.len(),
        ensures
            r == eats(self.parts(), chars@.skip(start as int), self.sensitive),
    {
        let ghost all = parts(self.pieces@);
        let mut at: usize = start;
        let mut n: usize = 0;
        proof {
            assert(all.skip(0) =~= all);
        }
        while n < self.pieces.len()
            invariant
                n <= self.pieces@.len(),
                all == parts(self.pieces@),
                at <= chars@.len(),
                eats(all, chars@.skip(start as int), self.sensitive) == eats(
                    all.skip(n as int),
                    chars@.skip(at as int),
                    self.sensitive,
                ),
            decreases self.pieces@.len() - n,
        {
            proof {
                assert(all.skip(n as int)[0] == self.pieces@[n as int].part());
                assert(all.skip(n as int).drop_first() =~= all.skip(n + 1));
            }
            match &self.pieces[n] {
                Piece::Text(text) => {
                    match self.consume(chars, at, text) {
                        Some(end) => {
                            proof {
                                assert(chars@.skip(at as int).skip(text@.len() as int)
                                    =~= chars@.skip(end as int));
                            }
                            at = end;
                        },
                        None => {
                            return false;
                        },
                    }
                },
                Piece::Gap { required } => {
                    let mut end: usize = at;
                    while end < chars.len() && is_whitespace(chars[end])
                        invariant
                            at <= end <= chars@.len(),
                            trim_start_of(chars@.skip(at as int)) == trim_start_of(
                                chars@.skip(end as int),
                            ),
                        decreases chars@.len() - end,
                    {
                        proof {
                            assert(chars@.skip(end as int).drop_first() =~= chars@.skip(end + 1));
                        }
                        end += 1;
                    }
                    proof {
                        assert(trim_start_of(chars@.skip(end as int)) == chars@.skip(end as int));
                    }
                    if *required && end == at {
                        return false;
                    }
                    at = end;
                },
            }
            n += 1;
        }
        proof {
            assert(all.skip(n as int) =~= Seq::empty());
        }
        true
    }
}

fn can_start(c: char, first: char, sensitive: bool) -> (r: bool)
    ensures
        r == may_start(c, first, sensitive),
{
    sensitive || first as u32 > 0x7f || (c as u32 <= 0x7f && to_ascii_lower((c as u32) as u8)
        == to_ascii_lower((first as u32) as u8))
}

/// Parts that are read off a text are read off it with more text behind it.
proof fn lemma_eats_grown(p: Seq<Part>, s: Seq<char>, more: Seq<char>, sensitive: bool)
    requires
        p.len() > 0,
        p.last() is Text,
        texts_not_empty(p),
        eats(p, s, sensitive),
    ensures
        eats(p, s + more, sensitive),
        s.len() > 0,
    decreases p.len(),
{
    let rest = p.drop_first();
    match p[0] {
        Part::Text(t) => {
            let left = s.skip(t.len() as int);
            assert((s + more).skip(t.len() as int) =~= left + more);
            assert forall|k: int| 0 <= k < t.len() implies same_letter(
                (s + more)[k],
                #[trigger] t[k],
                sensitive,
            ) by {
                assert(same_letter(s[k], t[k], sensitive));
            }
            if rest.len() > 0 {
                assert(texts_not_empty(rest));
                lemma_eats_grown(rest, left, more, sensitive);
            }
            assert(begins(s + more, t, sensitive));
            assert(eats(rest, left + more, sensitive));
        },
        Part::Gap(required) => {
            assert(texts_not_empty(rest));
            let left = trim_start_of(s);
            lemma_eats_grown(rest, left, more, sensitive);
            lemma_trim_grown(s, more);
            assert(eats(rest, left + more, sensitive));
        },
    }
}

proof fn lemma_trim_grown(s: Seq<char>, more: Seq<char>)
    requires
        trim_start_of(s).len() > 0,
    ensures
        trim_start_of(s + more) == trim_start_of(s) + more,
        s.len() > 0,
    decreases s.len(),
{
    if is_white(s[0]) {
        lemma_trim_grown(s.drop_first(), more);
        assert((s + more).drop_first() =~= s.drop_first() + more);
    }
}

proof fn lemma_eats_begins(p: Seq<Part>, s: Seq<char>, sensitive: bool)
    requires
        searchable(p),
        eats(p, s, sensitive),
    ensures
        begins(s, p[0]->Text_0, sensitive),
{
}

impl Loose {
    /// The byte from which on a match may start, found by the first piece of
    /// the query: by the whole of it where case counts, by its first character
    /// where that is ASCII. `None` when no byte will do.
    fn find_head(&self, tail: &[u8], first: char) -> (r: Option<usize>)
        requires
            self.wf(),
            first == self.head@[0],
            !self.sensitive ==> first as u32 <= 0x7f,
        ensures
            r matches Some(at) ==> at < tail@.len(),
            self.sensitive ==> forall|i: int|
                0 <= i < (if r is Some {
                    r->0 as int
                } else {
                    tail@.len() as int
                }) ==> !#[trigger] stands_at(tail@, encode_utf8(self.head@), i),
            !self.sensitive ==> forall|i: int|
                0 <= i < (if r is Some {
                    r->0 as int
                } else {
                    tail@.len() as int
                }) ==> ascii_lower(#[trigger] tail@[i]) != ascii_lower(first as u8),
    {
        if self.sensitive {
            proof {
                assert(parts(self.pieces@)[0]->Text_0.len() > 0);
                lemma_encode_step(self.head@, 0);
            }
            return memchr::memmem::find(tail, self.head.as_str().as_bytes());
        }
        let byte: u8 = (first as u32) as u8;
        let lower = to_ascii_lower(byte);
        let upper = to_ascii_upper(byte);
        if lower == upper {
            memchr::memchr(lower, tail)
        } else {
            memchr::memchr2(lower, upper, tail)
        }
    }

    /// Whether the query matches somewhere in a text.
    fn matches_in(&self, text: &str) -> (r: bool)
        requires
            self.wf(),
        ensures
            r == exists|a: int|
                0 <= a < text@.len() && loose_at(
                    self.parts(),
                    #[trigger] text@.skip(a),
                    self.sensitive,
                ),
    {
        let chars = chars_of(text);
        let bytes = text.as_bytes();
        let size: usize = bytes.len();
        let ghost p = self.parts();
        proof {
            assert(p[0] is Text && p[0]->Text_0.len() > 0);
        }
        let first = chars_of(self.head.as_str())[0];
        let by_bytes = self.sensitive || first as u32 <= 0x7f;
        let mut k: usize = 0;
        let mut from: usize = 0;
        proof {
            assert(chars@.take(0) =~= Seq::empty());
        }
        while k < chars.len()
            invariant
                self.wf(),
                p == self.parts(),
                first == self.head@[0],
                by_bytes == (self.sensitive || first as u32 <= 0x7f),
                chars@ == text@,
                bytes@ == encode_utf8(chars@),
                size == bytes@.len(),
                k <= chars@.len(),
                from == encode_utf8(chars@.take(k as int)).len(),
                from <= bytes@.len(),
                forall|a: int|
                    0 <= a < k ==> !loose_at(p, #[trigger] chars@.skip(a), self.sensitive),
            decreases chars@.len() - k,
        {
            proof {
                lemma_encode_step(chars@, k as int);
            }
            if by_bytes {
                let tail = slice_subrange(bytes, from, bytes.len());
                proof {
                    assert(tail@ =~= encode_utf8(chars@.skip(k as int)));
                }
                match self.find_head(tail, first) {
                    None => {
                        proof {
                            assert forall|a: int| 0 <= a < text@.len() implies !loose_at(
                                p,
                                #[trigger] text@.skip(a),
                                self.sensitive,
                            ) by {
                                if a >= k {
                                    lemma_encode_step(chars@, a);
                                    self.lemma_sieve(chars@, k as int, a, tail@.len() as int);
                                }
                            }
                        }
                        return false;
                    },
                    Some(at) => {
                        let ghost start = k;
                        let target: usize = from + at;
                        while from < target && k < chars.len()
                            invariant
                                self.wf(),
                                p == self.parts(),
                                first == self.head@[0],
                                self.sensitive || first as u32 <= 0x7f,
                                start <= k <= chars@.len(),
                                bytes@ == encode_utf8(chars@),
                                size == bytes@.len(),
                                from == encode_utf8(chars@.take(k as int)).len(),
                                from <= bytes@.len(),
                                encode_utf8(chars@.take(start as int)).len() + at == target,
                                at < encode_utf8(chars@.skip(start as int)).len(),
                                self.sensitive ==> forall|i: int|
                                    0 <= i < at ==> !#[trigger] stands_at(
                                        encode_utf8(chars@.skip(start as int)),
                                        encode_utf8(self.head@),
                                        i,
                                    ),
                                !self.sensitive ==> forall|i: int|
                                    0 <= i < at ==> ascii_lower(
                                        #[trigger] encode_utf8(chars@.skip(start as int))[i],
                                    ) != ascii_lower(first as u8),
                                forall|a: int|
                                    0 <= a < k ==> !loose_at(
                                        p,
                                        #[trigger] chars@.skip(a),
                                        self.sensitive,
                                    ),
                            decreases chars@.len() - k,
                        {
                            proof {
                                lemma_encode_step(chars@, k as int);
                                lemma_encode_split(chars@, k + 1);
                                self.lemma_sieve(chars@, start as int, k as int, at as int);
                            }
                            from = from + width(chars[k]);
                            k += 1;
                        }
                        if k >= chars.len() {
                            proof {
                                assert(chars@.take(k as int) =~= chars@);
                                assert(from == bytes@.len());
                                lemma_encode_split(chars@, start as int);
                            }
                            return false;
                        }
                    },
                }
            }
            proof {
                lemma_encode_step(chars@, k as int);
                lemma_encode_split(chars@, k + 1);
            }
            let c = chars[k];
            let start_ok = can_start(c, first, self.sensitive);
            proof {
                assert(p[0]->Text_0[0] == first);
                assert(chars@.skip(k as int)[0] == c);
            }
            if start_ok && self.matches_at(&chars, k) {
                proof {
                    assert(loose_at(p, text@.skip(k as int), self.sensitive));
                }
                return true;
            }
            from = from + width(c);
            k += 1;
        }
        false
    }

    /// Where the bytes before a limit hold no start of a match, no match starts
    /// at a character before it.
    proof fn lemma_sieve(&self, chars: Seq<char>, start: int, a: int, limit: int)
        requires
            self.wf(),
            0 <= start <= a < chars.len(),
            self.sensitive || self.head@[0] as u32 <= 0x7f,
            encode_utf8(chars.take(a)).len() - encode_utf8(chars.take(start)).len() < limit,
            limit <= encode_utf8(chars.skip(start)).len(),
            self.sensitive ==> forall|i: int|
                0 <= i < limit ==> !#[trigger] stands_at(
                    encode_utf8(chars.skip(start)),
                    encode_utf8(self.head@),
                    i,
                ),
            !self.sensitive ==> forall|i: int|
                0 <= i < limit ==> ascii_lower(#[trigger] encode_utf8(chars.skip(start))[i])
                    != ascii_lower(self.head@[0] as u8),
        ensures
            !loose_at(self.parts(), chars.skip(a), self.sensitive),
    {
        let p = self.parts();
        let s = chars.skip(a);
        let tail = encode_utf8(chars.skip(start));
        let at = encode_utf8(chars.take(a)).len() - encode_utf8(chars.take(start)).len();
        let between = chars.subrange(start, a);
        assert(chars.take(a) =~= chars.take(start) + between);
        lemma_encode_concat(chars.take(start), between);
        assert(chars.skip(start) =~= between + s);
        lemma_encode_concat(between, s);
        assert(at == encode_utf8(between).len());
        lemma_encode_step(chars, a);
        if loose_at(p, s, self.sensitive) {
            lemma_eats_begins(p, s, self.sensitive);
            let head = self.head@;
            if self.sensitive {
                assert(s.take(head.len() as int) =~= head) by {
                    assert forall|k: int| 0 <= k < head.len() implies s[k] == head[k] by {
                        assert(same_letter(s[k], head[k], true));
                    }
                }
                assert(s =~= head + s.skip(head.len() as int));
                lemma_encode_concat(head, s.skip(head.len() as int));
                assert(tail.subrange(at, at + encode_utf8(head).len()) =~= encode_utf8(head));
                assert(stands_at(tail, encode_utf8(head), at));
            } else {
                let c = s[0];
                assert(c as u32 <= 0x7f);
                lemma_ascii_encoded(c);
                assert(encode_utf8(s)[0] == c as u8);
                assert(tail[at] == c as u8);
            }
        }
    }

    /// Whether the query matches in some text that the bytes hold.
    fn matches(&self, haystack: &[u8]) -> (r: bool)
        requires
            self.wf(),
        ensures
            r == holds_text(
                haystack@,
                |s: Seq<char>| loose_at(self.parts(), s, self.is_sensitive()),
            ),
    {
        let ghost p = self.parts();
        let ghost wanted = |s: Seq<char>| loose_at(p, s, self.sensitive);
        let total: usize = haystack.len();
        let mut pos: usize = 0;
        while pos < total
            invariant
                self.wf(),
                p == self.parts(),
                wanted == (|s: Seq<char>| loose_at(p, s, self.sensitive)),
                total == haystack@.len(),
                pos <= total + 1,
                forall|i: int, j: int| i < pos ==> !#[trigger] is_piece(haystack@, i, j, wanted),
            decreases total - pos,
        {
            let rest = slice_subrange(haystack, pos, total);
            let text = leading_text(rest);
            let end: usize = pos + text.len();
            let ghost chunk = haystack@.subrange(pos as int, end as int);
            proof {
                assert(rest@.take(end - pos) =~= chunk);
                vstd::utf8::encode_utf8_valid_utf8(text@);
                vstd::utf8::encode_utf8_decode_utf8(text@);
                assert forall|m: int| end < m <= haystack@.len() implies !valid_utf8(
                    #[trigger] haystack@.subrange(pos as int, m),
                ) by {
                    assert(rest@.take(m - pos) =~= haystack@.subrange(pos as int, m));
                }
            }
            if self.matches_in(text) {
                proof {
                    let a = choose|a: int|
                        0 <= a < text@.len() && loose_at(p, #[trigger] text@.skip(a), self.sensitive);
                    let (i, j) = lemma_chars_are_a_piece(
                        haystack@,
                        pos as int,
                        text@,
                        a,
                        text@.len() as int,
                    );
                    assert(text@.subrange(a, text@.len() as int) =~= text@.skip(a));
                    assert(is_piece(haystack@, i, j, wanted));
                }
                return true;
            }
            proof {
                assert forall|i: int, j: int| i < end + 1 implies !#[trigger] is_piece(
                    haystack@,
                    i,
                    j,
                    wanted,
                ) by {
                    if i >= pos && is_piece(haystack@, i, j, wanted) {
                        let piece = decode_utf8(haystack@.subrange(i, j));
                        if i == j {
                            assert(haystack@.subrange(i, j) =~= Seq::empty());
                            assert(piece.len() == 0);
                        } else {
                            let (a, b) = lemma_piece_inside_or_behind(
                                haystack@,
                                pos as int,
                                end as int,
                                i,
                                j,
                            );
                            assert(text@.subrange(a, b) == piece);
                            assert(text@.skip(a) =~= piece + text@.skip(b));
                            lemma_eats_grown(p, piece, text@.skip(b), self.sensitive);
                            assert(loose_at(p, text@.skip(a), self.sensitive));
                        }
                    }
                }
            }
            if end >= total {
                pos = total;
                proof {
                    assert forall|i: int, j: int| i < pos implies !#[trigger] is_piece(
                        haystack@,
                        i,
                        j,
                        wanted,
                    ) by {}
                    assert(!holds_text(haystack@, wanted)) by {
                        assert forall|i: int, j: int| !#[trigger] is_piece(haystack@, i, j, wanted) by {
                            assert(i < end + 1 || !is_piece(haystack@, i, j, wanted));
                        }
                    }
                }
            } else {
                pos = end + 1;
            }
        }
        proof {
            assert forall|i: int, j: int| !#[trigger] is_piece(haystack@, i, j, wanted) by {
                if i >= pos && is_piece(haystack@, i, j, wanted) {
                    assert(haystack@.subrange(i, j) =~= Seq::empty());
                    assert(decode_utf8(haystack@.subrange(i, j)).len() == 0);
                }
            }
        }
        false
    }
}

proof fn lemma_encode_split(chars: Seq<char>, k: int)
    requires
        0 <= k <= chars.len(),
    ensures
        encode_utf8(chars) == encode_utf8(chars.take(k)) + encode_utf8(chars.skip(k)),
{
    assert(chars =~= chars.take(k) + chars.skip(k));
    lemma_encode_concat(chars.take(k), chars.skip(k));
}

proof fn lemma_ascii_encoded(c: char)
    requires
        c as u32 <= 0x7f,
    ensures
        encode_scalar(c as u32).len() == 1,
        encode_scalar(c as u32)[0] == c as u8,
{
    let s = seq![c];
    assert(is_ascii_chars(s));
    vstd::utf8::is_ascii_chars_encode_utf8(s);
    lemma_encode_step(s, 0);
    assert(s.take(1) =~= s);
    assert(s.take(0) =~= Seq::empty());
    assert(encode_utf8(Seq::<char>::empty()) =~= Seq::empty());
    assert(encode_utf8(s) =~= encode_scalar(c as u32));
}

// ---------------------------------------------------------------------------
// Literal search
// ---------------------------------------------------------------------------
/// The bytes differ in nothing but the case of ASCII letters.
fn same_ignoring_ascii_case(a: &[u8], b: &[u8]) -> (r: bool)
    requires
        a@.len() == b@.len(),
    ensures
        r == (forall|k: int| 0 <= k < b@.len() ==> ascii_lower(a@[k]) == ascii_lower(#[trigger] b@[k])),
{
    let mut k: usize = 0;
    while k < b.len()
        invariant
            a@.len() == b@.len(),
            k <= b@.len(),
            forall|j: int| 0 <= j < k ==> ascii_lower(a@[j]) == ascii_lower(#[trigger] b@[j]),
        decreases b@.len() - k,
    {
        if to_ascii_lower(a[k]) != to_ascii_lower(b[k]) {
            proof {
                assert(ascii_lower(a@[k as int]) != ascii_lower(b@[k as int]));
            }
            return false;
        }
        k += 1;
    }
    true
}

/// Search that ignores the case of ASCII letters: goes by the places where the
/// first byte stands in either case.
fn ascii_contains(haystack: &[u8], needle: &[u8]) -> (r: bool)
    requires
        needle@.len() > 0,
    ensures
        r == exists|at: int| ascii_stands_at(haystack@, needle@, at),
{
    if needle.len() > haystack.len() {
        return false;
    }
    let first: u8 = needle[0];
    let lower = to_ascii_lower(first);
    let upper = to_ascii_upper(first);
    let size: usize = needle.len();
    let last_start: usize = haystack.len() - size;
    let mut offset: usize = 0;
    while offset <= last_start
        invariant
            size == needle@.len() > 0,
            first == needle@[0],
            lower == ascii_lower(first),
            upper == ascii_upper(first),
            last_start + size == haystack@.len(),
            haystack@.len() <= usize::MAX,
            offset <= last_start + 1,
            forall|at: int| at < offset ==> !#[trigger] ascii_stands_at(haystack@, needle@, at),
        decreases last_start + 1 - offset,
    {
        let window = slice_subrange(haystack, offset, last_start + 1);
        let found = if lower == upper {
            memchr::memchr(lower, window)
        } else {
            memchr::memchr2(lower, upper, window)
        };
        match found {
            None => {
                proof {
                    assert forall|at: int| !#[trigger] ascii_stands_at(haystack@, needle@, at) by {
                        if at >= offset && ascii_stands_at(haystack@, needle@, at) {
                            assert(ascii_lower(haystack@[at + 0]) == ascii_lower(needle@[0]));
                            assert(window@[at - offset] == haystack@[at]);
                        }
                    }
                }
                return false;
            },
            Some(pos) => {
                let start: usize = offset + pos;
                let here = slice_subrange(haystack, start, start + size);
                if same_ignoring_ascii_case(here, needle) {
                    proof {
                        assert forall|k: int| 0 <= k < needle@.len() implies ascii_lower(
                            haystack@[start + k],
                        ) == ascii_lower(#[trigger] needle@[k]) by {
                            assert(here@[k] == haystack@[start + k]);
                        }
                        assert(ascii_stands_at(haystack@, needle@, start as int));
                    }
                    return true;
                }
                proof {
                    assert forall|at: int| at < start + 1 implies !#[trigger] ascii_stands_at(
                        haystack@,
                        needle@,
                        at,
                    ) by {
                        if at >= offset && ascii_stands_at(haystack@, needle@, at) {
                            if at < start {
                                assert(ascii_lower(haystack@[at + 0]) == ascii_lower(needle@[0]));
                                assert(window@[at - offset] == haystack@[at]);
                            } else {
                                assert forall|k: int| 0 <= k < needle@.len() implies ascii_lower(
                                    here@[k],
                                ) == ascii_lower(#[trigger] needle@[k]) by {
                                    assert(here@[k] == haystack@[start + k]);
                                }
                            }
                        }
                    }
                }
                offset = start + 1;
            },
        }
    }
    false
}

/// Whether a text has the needle, up to case, at a position.
fn starts_with_fold(chars: &Vec<char>, at: usize, needle: &Vec<char>) -> (r: bool)
    requires
        at + needle@.len() <= chars@.len(),
    ensures
        r == fold_equal(chars@.subrange(at as int, at + needle@.len()), needle@),
{
    let total: usize = chars.len();
    let ghost s = chars@.subrange(at as int, at + needle@.len());
    let mut k: usize = 0;
    while k < needle.len()
        invariant
            total == chars@.len(),
            at + needle@.len() <= total,
            s == chars@.subrange(at as int, at + needle@.len()),
            k <= needle@.len(),
            forall|j: int| 0 <= j < k ==> folds(s[j], #[trigger] needle@[j]),
        decreases needle@.len() - k,
    {
        if !eq_fold(chars[at + k], needle[k]) {
            proof {
                assert(!folds(s[k as int], needle@[k as int]));
            }
            return false;
        }
        k += 1;
    }
    true
}

/// Whether a text has the needle, up to case.
fn str_contains_fold(text: &str, needle: &Vec<char>) -> (r: bool)
    ensures
        r == exists|a: int|
            0 <= a && a + needle@.len() <= text@.len() && fold_equal(
                #[trigger] text@.subrange(a, a + needle@.len()),
                needle@,
            ),
{
    let chars = chars_of(text);
    let size: usize = needle.len();
    let total: usize = chars.len();
    if size > total {
        return false;
    }
    let mut a: usize = 0;
    while a <= total - size
        invariant
            size == needle@.len(),
            total == chars@.len(),
            chars@ == text@,
            size <= total,
            a <= total - size + 1,
            forall|b: int|
                0 <= b < a ==> !fold_equal(#[trigger] text@.subrange(b, b + needle@.len()), needle@),
        decreases total - a,
    {
        if starts_with_fold(&chars, a, needle) {
            return true;
        }
        if a == total - size {
            return false;
        }
        a += 1;
    }
    false
}

/// Search up to case for a needle that is not ASCII. The body need not be text,
/// so it goes by those parts of it that are.
fn unicode_contains(haystack: &[u8], needle: &Vec<char>) -> (r: bool)
    requires
        needle@.len() > 0,
    ensures
        r == holds_text(haystack@, |s: Seq<char>| fold_equal(s, needle@)),
{
    let ghost wanted = |s: Seq<char>| fold_equal(s, needle@);
    let total: usize = haystack.len();
    let mut pos: usize = 0;
    while pos < total
        invariant
            needle@.len() > 0,
            wanted == (|s: Seq<char>| fold_equal(s, needle@)),
            total == haystack@.len(),
            forall|i: int, j: int| i < pos ==> !#[trigger] is_piece(haystack@, i, j, wanted),
        decreases total - pos,
    {
        let rest = slice_subrange(haystack, pos, total);
        let text = leading_text(rest);
        let end: usize = pos + text.len();
        let ghost chunk = haystack@.subrange(pos as int, end as int);
        proof {
            assert(rest@.take(end - pos) =~= chunk);
            vstd::utf8::encode_utf8_valid_utf8(text@);
            vstd::utf8::encode_utf8_decode_utf8(text@);
            assert forall|m: int| end < m <= haystack@.len() implies !valid_utf8(
                #[trigger] haystack@.subrange(pos as int, m),
            ) by {
                assert(rest@.take(m - pos) =~= haystack@.subrange(pos as int, m));
            }
        }
        if str_contains_fold(text, needle) {
            proof {
                let a = choose|a: int|
                    0 <= a && a + needle@.len() <= text@.len() && fold_equal(
                        #[trigger] text@.subrange(a, a + needle@.len()),
                        needle@,
                    );
                let (i, j) = lemma_chars_are_a_piece(
                    haystack@,
                    pos as int,
                    text@,
                    a,
                    a + needle@.len(),
                );
                assert(is_piece(haystack@, i, j, wanted));
            }
            return true;
        }
        proof {
            assert forall|i: int, j: int| i < end + 1 implies !#[trigger] is_piece(
                haystack@,
                i,
                j,
                wanted,
            ) by {
                if i >= pos && is_piece(haystack@, i, j, wanted) {
                    let piece = decode_utf8(haystack@.subrange(i, j));
                    if i == j {
                        assert(haystack@.subrange(i, j) =~= Seq::empty());
                        assert(piece.len() == 0);
                    } else {
                        let (a, b) = lemma_piece_inside_or_behind(
                            haystack@,
                            pos as int,
                            end as int,
                            i,
                            j,
                        );
                        assert(text@.subrange(a, b) == piece);
                        assert(b == a + needle@.len());
                    }
                }
            }
        }
        if end >= total {
            pos = total;
        } else {
            pos = end + 1;
        }
    }
    proof {
        assert forall|i: int, j: int| !#[trigger] is_piece(haystack@, i, j, wanted) by {
            if i >= pos && is_piece(haystack@, i, j, wanted) {
                assert(haystack@.subrange(i, j) =~= Seq::empty());
                assert(decode_utf8(haystack@.subrange(i, j)).len() == 0);
            }
        }
    }
    false
}

// ---------------------------------------------------------------------------
// The prepared query
// ---------------------------------------------------------------------------
/// The literal form of a query.
enum Exact {
    /// An empty query matches everything: nothing is filtered.
    Empty,
    Sensitive(Vec<u8>),
    /// The query is ASCII: the fast way over bytes. It is right in any text,
    /// because no byte of a longer character is ASCII.
    AsciiInsensitive(Vec<u8>),
    UnicodeInsensitive(Vec<char>),
}

impl Exact {
    spec fn stands_for(&self, text: Seq<char>, sensitive: bool) -> bool {
        match self {
            Exact::Empty => text.len() == 0,
            Exact::Sensitive(n) => text.len() > 0 && sensitive && n@ == encode_utf8(text),
            Exact::AsciiInsensitive(n) => text.len() > 0 && !sensitive && is_ascii_chars(text)
                && n@ == encode_utf8(text),
            Exact::UnicodeInsensitive(n) => text.len() > 0 && !sensitive && !is_ascii_chars(text)
                && n@ == text,
        }
    }
}

/// A prepared query.
pub struct Needle {
    exact: Exact,
    loose: Option<Loose>,
    text: Ghost<Seq<char>>,
    sensitive: Ghost<bool>,
}

impl Needle {
    pub closed spec fn wf(&self) -> bool {
        &&& self.exact.stands_for(self.text@, self.sensitive@)
        &&& self.loose is Some <==> loosens(self.text@)
        &&& self.loose matches Some(loose) ==> loose.wf() && loose.parts() == query_parts(self.text@)
            && loose.is_sensitive() == self.sensitive@
    }

    /// The query as it was typed.
    pub closed spec fn query(&self) -> Seq<char> {
        self.text@
    }

    /// Whether case counts.
    pub closed spec fn case_sensitive(&self) -> bool {
        self.sensitive@
    }

    /// Prepares a query.
    pub fn new(text: &str, case_sensitive: bool) -> (r: Self)
        ensures
            r.wf(),
            r.query() == text@,
            r.case_sensitive() == case_sensitive,
    {
        let exact = if text.is_empty() {
            Exact::Empty
        } else if case_sensitive {
            Exact::Sensitive(vstd::slice::slice_to_vec(text.as_bytes()))
        } else if text.is_ascii() {
            Exact::AsciiInsensitive(vstd::slice::slice_to_vec(text.as_bytes()))
        } else {
            Exact::UnicodeInsensitive(chars_of(text))
        };
        let loose = Loose::compile(text, case_sensitive);
        Needle { exact, loose, text: Ghost(text@), sensitive: Ghost(case_sensitive) }
    }

    pub fn is_empty(&self) -> (r: bool)
        requires
            self.wf(),
        ensures
            r == (self.query().len() == 0),
    {
        match &self.exact {
            Exact::Empty => true,
            _ => false,
        }
    }

    /// Whether the query is found in the bytes. The loose form is tried only
    /// where the literal one misses.
    pub fn matches(&self, haystack: &[u8]) -> (r: bool)
        requires
            self.wf(),
        ensures
            r == finds(self.query(), self.case_sensitive(), haystack@),
    {
        let found = match &self.exact {
            Exact::Empty => true,
            Exact::Sensitive(n) => {
                let found = n.len() <= haystack.len() && memchr::memmem::find(
                    haystack,
                    n.as_slice(),
                ).is_some();
                found
            },
            Exact::AsciiInsensitive(n) => {
                proof {
                    lemma_encode_step(self.text@, 0);
                }
                ascii_contains(haystack, n.as_slice())
            },
            Exact::UnicodeInsensitive(n) => unicode_contains(haystack, n),
        };
        proof {
            assert(found == finds_exactly(self.text@, self.sensitive@, haystack@));
        }
        if found {
            return true;
        }
        match &self.loose {
            Some(loose) => loose.matches(haystack),
            None => false,
        }
    }
}

// ---------------------------------------------------------------------------
// Laws
// ---------------------------------------------------------------------------
/// An empty query finds everything.
pub proof fn law_empty_query_finds_everything(sensitive: bool, haystack: Seq<u8>)
    ensures
        finds(Seq::empty(), sensitive, haystack),
{
}

/// The loose form never loses a hit of the literal one.
pub proof fn law_loosening_loses_nothing(text: Seq<char>, sensitive: bool, haystack: Seq<u8>)
    requires
        finds_exactly(text, sensitive, haystack),
    ensures
        finds(text, sensitive, haystack),
{
}

proof fn lemma_eats_any_case(p: Seq<Part>, s: Seq<char>)
    requires
        eats(p, s, true),
    ensures
        eats(p, s, false),
    decreases p.len(),
{
    if p.len() > 0 {
        match p[0] {
            Part::Text(t) => {
                assert(begins(s, t, false)) by {
                    assert forall|k: int| 0 <= k < t.len() implies same_letter(
                        s[k],
                        #[trigger] t[k],
                        false,
                    ) by {
                        assert(same_letter(s[k], t[k], true));
                    }
                }
                lemma_eats_any_case(p.drop_first(), s.skip(t.len() as int));
            },
            Part::Gap(_) => {
                lemma_eats_any_case(p.drop_first(), trim_start_of(s));
            },
        }
    }
}

/// What a query finds with its case, it finds without.
pub proof fn law_ignoring_case_loses_nothing(text: Seq<char>, haystack: Seq<u8>)
    requires
        finds(text, true, haystack),
    ensures
        finds(text, false, haystack),
{
    if finds_exactly(text, true, haystack) {
        if text.len() > 0 {
            let needle = encode_utf8(text);
            let at = choose|at: int| stands_at(haystack, needle, at);
            if is_ascii_chars(text) {
                assert forall|k: int| 0 <= k < needle.len() implies ascii_lower(haystack[at + k])
                    == ascii_lower(#[trigger] needle[k]) by {
                    assert(haystack.subrange(at, at + needle.len())[k] == haystack[at + k]);
                }
                assert(ascii_stands_at(haystack, needle, at));
            } else {
                let wanted = |s: Seq<char>| fold_equal(s, text);
                vstd::utf8::encode_utf8_valid_utf8(text);
                vstd::utf8::encode_utf8_decode_utf8(text);
                assert(is_piece(haystack, at, at + needle.len(), wanted));
            }
        }
    } else {
        let p = query_parts(text);
        let exact = |s: Seq<char>| loose_at(p, s, true);
        let folded = |s: Seq<char>| loose_at(p, s, false);
        let (i, j) = choose|i: int, j: int| is_piece(haystack, i, j, exact);
        let s = decode_utf8(haystack.subrange(i, j));
        lemma_query_searchable(text);
        lemma_eats_any_case(p, s);
        let t = p[0]->Text_0;
        assert(begins(s, t, true));
        assert(same_letter(s[0], t[0], true));
        assert(loose_at(p, s, false));
        assert(is_piece(haystack, i, j, folded));
    }
}

proof fn lemma_cut_same_rest(a: Seq<char>, b: Seq<char>, rest: Seq<char>)
    requires
        cut(a) == cut(b),
    ensures
        cut(a + rest) == cut(b + rest),
    decreases rest.len(),
{
    if rest.len() == 0 {
        assert(a + rest =~= a);
        assert(b + rest =~= b);
    } else {
        lemma_cut_same_rest(a, b, rest.drop_last());
        assert((a + rest).drop_last() =~= a + rest.drop_last());
        assert((b + rest).drop_last() =~= b + rest.drop_last());
        assert((a + rest).last() == rest.last());
        assert((b + rest).last() == rest.last());
    }
}

/// What is left of a text after the parts were read off its start.
spec fn left(parts: Seq<Part>, s: Seq<char>, sensitive: bool) -> Option<Seq<char>>
    decreases parts.len(),
{
    if parts.len() == 0 {
        Some(s)
    } else {
        match parts[0] {
            Part::Text(t) => if begins(s, t, sensitive) {
                left(parts.drop_first(), s.skip(t.len() as int), sensitive)
            } else {
                None
            },
            Part::Gap(required) => if required && trim_start_of(s).len() >= s.len() {
                None
            } else {
                left(parts.drop_first(), trim_start_of(s), sensitive)
            },
        }
    }
}

proof fn lemma_left_eats(p: Seq<Part>, s: Seq<char>, sensitive: bool)
    ensures
        eats(p, s, sensitive) <==> left(p, s, sensitive) is Some,
    decreases p.len(),
{
    if p.len() > 0 {
        match p[0] {
            Part::Text(t) => {
                lemma_left_eats(p.drop_first(), s.skip(t.len() as int), sensitive);
            },
            Part::Gap(_) => {
                lemma_left_eats(p.drop_first(), trim_start_of(s), sensitive);
            },
        }
    }
}

proof fn lemma_left_push(p: Seq<Part>, x: Part, s: Seq<char>, sensitive: bool)
    ensures
        left(p.push(x), s, sensitive) == (match left(p, s, sensitive) {
            Some(rest) => left(seq![x], rest, sensitive),
            None => None,
        }),
    decreases p.len(),
{
    let all = p.push(x);
    if p.len() == 0 {
        assert(all =~= seq![x]);
    } else {
        assert(all.drop_first() =~= p.drop_first().push(x));
        match p[0] {
            Part::Text(t) => {
                lemma_left_push(p.drop_first(), x, s.skip(t.len() as int), sensitive);
            },
            Part::Gap(_) => {
                lemma_left_push(p.drop_first(), x, trim_start_of(s), sensitive);
            },
        }
    }
}

proof fn lemma_left_one(x: Part, s: Seq<char>, sensitive: bool)
    ensures
        left(seq![x], s, sensitive) == (match x {
            Part::Text(t) => if begins(s, t, sensitive) {
                Some(s.skip(t.len() as int))
            } else {
                None
            },
            Part::Gap(required) => if required && trim_start_of(s).len() >= s.len() {
                None
            } else {
                Some(trim_start_of(s))
            },
        }),
{
    assert(seq![x].drop_first() =~= Seq::<Part>::empty());
    match x {
        Part::Text(t) => {
            assert(left(Seq::<Part>::empty(), s.skip(t.len() as int), sensitive) == Some(
                s.skip(t.len() as int),
            ));
        },
        Part::Gap(_) => {
            assert(left(Seq::<Part>::empty(), trim_start_of(s), sensitive) == Some(
                trim_start_of(s),
            ));
        },
    }
}

proof fn lemma_trim_start(s: Seq<char>)
    ensures
        trim_start_of(s).len() <= s.len(),
        trim_start_of(s) == s.skip(s.len() - trim_start_of(s).len()),
        trim_start_of(trim_start_of(s)) == trim_start_of(s),
        trim_start_of(s).len() > 0 ==> !is_white(trim_start_of(s)[0]),
        s.len() > 0 && !is_white(s[0]) ==> trim_start_of(s) == s,
    decreases s.len(),
{
    if s.len() > 0 && is_white(s[0]) {
        let rest = s.drop_first();
        lemma_trim_start(rest);
        assert(rest.skip(rest.len() - trim_start_of(rest).len()) =~= s.skip(
            s.len() - trim_start_of(rest).len(),
        ));
    } else {
        assert(s.skip(0) =~= s);
    }
}

/// A gap that is added where white space may stand, or where it does.
proof fn lemma_left_gap(p: Seq<Part>, required: bool, s: Seq<char>, sensitive: bool)
    requires
        left(p, s, sensitive) is Some,
        p.len() > 0 && p.last() is Gap || !required || trim_start_of(
            left(p, s, sensitive)->0,
        ).len() < left(p, s, sensitive)->0.len(),
    ensures
        left(with_gap(p, required), s, sensitive) == Some(
            trim_start_of(left(p, s, sensitive)->0),
        ),
{
    let rest = left(p, s, sensitive)->0;
    lemma_trim_start(rest);
    if p.len() > 0 && p.last() is Gap {
        let init = p.drop_last();
        let had = p.last()->Gap_0;
        assert(p =~= init.push(Part::Gap(had)));
        lemma_left_push(init, Part::Gap(had), s, sensitive);
        let open = left(init, s, sensitive)->0;
        lemma_left_one(Part::Gap(had), open, sensitive);
        lemma_trim_start(open);
        assert(with_gap(p, required) =~= init.push(Part::Gap(had && required)));
        lemma_left_push(init, Part::Gap(had && required), s, sensitive);
        lemma_left_one(Part::Gap(had && required), open, sensitive);
    } else {
        lemma_left_push(p, Part::Gap(required), s, sensitive);
        lemma_left_one(Part::Gap(required), rest, sensitive);
    }
}

/// A text that reads as another one does: the same letters, up to case where
/// that does not matter, and white space in the same places.
pub open spec fn alike(s: Seq<char>, text: Seq<char>, sensitive: bool) -> bool {
    s.len() == text.len() && forall|k: int|
        0 <= k < text.len() ==> {
            &&& same_letter(s[k], #[trigger] text[k], sensitive)
            &&& is_white(s[k]) == is_white(text[k])
            &&& may_start(s[k], text[k], sensitive)
        }
}

/// What is collected is the end of the text, and does not begin with white
/// space; parts end with a gap.
proof fn lemma_cut_shape(text: Seq<char>)
    ensures
        ({
            let s = cut(text);
            &&& s.current.len() <= text.len()
            &&& s.current == text.skip(text.len() - s.current.len())
            &&& s.current.len() > 0 ==> !is_white(s.current[0])
            &&& s.parts.len() == 0 ==> s.current == text
            &&& s.parts.len() > 0 ==> s.parts.last() is Gap
            &&& s.in_string ==> s.current.len() > 0
            &&& text.len() > 0 && is_white(text[0]) ==> s.parts.len() > 0 && s.parts[0] is Gap
        }),
    decreases text.len(),
{
    if text.len() > 0 {
        let init = text.drop_last();
        let c = text.last();
        lemma_cut_shape(init);
        let before = cut(init);
        let after = cut(text);
        if after.current.len() > 0 {
            assert(after.current =~= text.skip(text.len() - after.current.len()));
        } else {
            assert(after.current =~= text.skip(text.len() as int));
        }
        let flushed = with_text(before.parts, before.current);
        if init.len() > 0 {
            assert(text[0] == init[0]);
        }
    } else {
        assert(cut(text).current =~= text.skip(0));
    }
}

/// The parts of a query can be read off every text that reads as it does, up to
/// what was not made a part yet.
proof fn lemma_cut_reads_itself(text: Seq<char>, s: Seq<char>, tail: Seq<char>, sensitive: bool)
    requires
        alike(s, text, sensitive),
    ensures
        ({
            let done = cut(text);
            let open = s.skip(s.len() - done.current.len()) + tail;
            left(done.parts, s + tail, sensitive) == Some(
                if done.parts.len() == 0 {
                    open
                } else {
                    trim_start_of(open)
                },
            )
        }),
    decreases text.len(),
{
    lemma_cut_shape(text);
    if text.len() == 0 {
        assert(s + tail =~= s.skip(0) + tail);
    } else {
        let init = text.drop_last();
        let c = text.last();
        let d = s.last();
        let front = s.drop_last();
        let next = seq![d] + tail;
        assert(alike(front, init, sensitive)) by {
            assert forall|k: int| 0 <= k < init.len() implies {
                &&& same_letter(front[k], #[trigger] init[k], sensitive)
                &&& is_white(front[k]) == is_white(init[k])
                &&& may_start(front[k], init[k], sensitive)
            } by {
                assert(init[k] == text[k]);
            }
        }
        assert(text[text.len() - 1] == c);
        lemma_cut_shape(init);
        lemma_cut_reads_itself(init, front, next, sensitive);
        assert(front + next =~= s + tail);
        let before = cut(init);
        let after = cut(text);
        let n = before.current.len() as int;
        let read = front.skip(front.len() - n);
        let open = read + next;
        if n > 0 {
            assert(before.current[0] == init[init.len() - n]);
            assert(read[0] == front[front.len() - n]);
            assert(!is_white(open[0]));
            lemma_trim_start(open);
        }
        if after.current.len() > 0 {
            assert(s.skip(s.len() - after.current.len()) + tail =~= open);
        } else {
            let flushed = with_text(before.parts, before.current);
            assert(read.len() == n);
            assert(open.skip(n) =~= next);
            if n > 0 {
                assert(begins(open, before.current, sensitive)) by {
                    assert forall|k: int| 0 <= k < n implies same_letter(
                        open[k],
                        #[trigger] before.current[k],
                        sensitive,
                    ) by {
                        assert(before.current[k] == init[init.len() - n + k]);
                        assert(open[k] == front[front.len() - n + k]);
                    }
                }
                lemma_left_push(before.parts, Part::Text(before.current), s + tail, sensitive);
                lemma_left_one(Part::Text(before.current), open, sensitive);
            } else {
                assert(open =~= next);
            }
            let rest = left(flushed, s + tail, sensitive)->0;
            assert(s.skip(s.len() as int) + tail =~= tail);
            lemma_trim_start(next);
            assert(next.drop_first() =~= tail);
            if is_white(c) {
                assert(trim_start_of(next) == trim_start_of(tail));
                lemma_trim_start(tail);
                lemma_left_gap(flushed, true, s + tail, sensitive);
                assert(trim_start_of(rest) == trim_start_of(tail));
            } else {
                assert(is_structural(c));
                lemma_left_gap(flushed, false, s + tail, sensitive);
                let gapped = with_gap(flushed, false);
                assert(left(gapped, s + tail, sensitive) == Some(next));
                lemma_left_push(gapped, Part::Text(seq![c]), s + tail, sensitive);
                lemma_left_one(Part::Text(seq![c]), next, sensitive);
                assert(begins(next, seq![c], sensitive));
                assert(next.skip(1) =~= tail);
                lemma_left_gap(gapped.push(Part::Text(seq![c])), false, s + tail, sensitive);
            }
        }
    }
}

proof fn lemma_first_gaps_dropped(p: Seq<Part>, s: Seq<char>, sensitive: bool)
    requires
        eats(p, s, sensitive),
        p.len() > 0 && p[0] is Text ==> trim_start_of(s) == s,
    ensures
        eats(no_first_gaps(p), trim_start_of(s), sensitive),
    decreases p.len(),
{
    if p.len() > 0 && p[0] is Gap {
        lemma_trim_start(s);
        lemma_first_gaps_dropped(p.drop_first(), trim_start_of(s), sensitive);
    }
}

proof fn lemma_last_gaps_dropped(p: Seq<Part>, s: Seq<char>, sensitive: bool)
    requires
        eats(p, s, sensitive),
    ensures
        eats(no_last_gaps(p), s, sensitive),
    decreases p.len(),
{
    if p.len() > 0 && p.last() is Gap {
        lemma_left_eats(p, s, sensitive);
        assert(p =~= p.drop_last().push(p.last()));
        lemma_left_push(p.drop_last(), p.last(), s, sensitive);
        lemma_left_eats(p.drop_last(), s, sensitive);
        lemma_last_gaps_dropped(p.drop_last(), s, sensitive);
    }
}

/// What is left of a query without its edges can be read off every text that
/// reads as the query does, from the first letter on.
proof fn lemma_query_reads_itself(text: Seq<char>, s: Seq<char>, sensitive: bool)
    requires
        alike(s, text, sensitive),
    ensures
        eats(query_parts(text), trim_start_of(s), sensitive),
{
    let none = Seq::<char>::empty();
    let done = cut(text);
    let n = done.current.len() as int;
    lemma_cut_shape(text);
    lemma_cut_reads_itself(text, s, none, sensitive);
    let read = s.skip(s.len() - n);
    assert(s + none =~= s);
    assert(read + none =~= read);
    let all = whole_parts(text);
    if n > 0 {
        assert(done.current[0] == text[text.len() - n]);
        assert(read[0] == s[s.len() - n]);
        lemma_trim_start(read);
        assert(begins(read, done.current, sensitive)) by {
            assert forall|k: int| 0 <= k < n implies same_letter(
                read[k],
                #[trigger] done.current[k],
                sensitive,
            ) by {
                assert(done.current[k] == text[text.len() - n + k]);
                assert(read[k] == s[s.len() - n + k]);
            }
        }
        lemma_left_push(done.parts, Part::Text(done.current), s, sensitive);
        lemma_left_one(Part::Text(done.current), read, sensitive);
    }
    lemma_left_eats(all, s, sensitive);
    if all.len() > 0 && all[0] is Text {
        assert(text.len() > 0);
        assert(!is_white(text[0]));
        assert(!is_white(s[0]));
        lemma_trim_start(s);
    }
    lemma_first_gaps_dropped(all, s, sensitive);
    lemma_last_gaps_dropped(no_first_gaps(all), trim_start_of(s), sensitive);
}

proof fn lemma_white_cut(white: Seq<char>)
    requires
        white.len() > 0,
        blank(white),
    ensures
        cut(white) == (Cut {
            parts: seq![Part::Gap(true)],
            current: Seq::empty(),
            in_string: false,
            escaped: false,
        }),
    decreases white.len(),
{
    assert(is_white(white[white.len() - 1]));
    let init = white.drop_last();
    if init.len() > 0 {
        assert forall|i: int| 0 <= i < init.len() implies is_white(#[trigger] init[i]) by {
            assert(white[i] == init[i]);
        }
        lemma_white_cut(init);
        assert(cut(white).parts =~= seq![Part::Gap(true)]);
    } else {
        assert(cut(init).parts.len() == 0);
        assert(cut(white).parts =~= seq![Part::Gap(true)]);
    }
}

/// The same parts, but for a gap at the beginning.
spec fn same_behind_gap(indented: Seq<Part>, plain: Seq<Part>) -> bool {
    &&& indented.len() > 0
    &&& indented[0] is Gap
    &&& {
        ||| indented.drop_first() == plain
        ||| plain.len() > 0 && plain[0] is Gap && indented.drop_first() == plain.drop_first()
    }
}

proof fn lemma_same_behind_gap_text(a: Seq<Part>, b: Seq<Part>, t: Seq<char>)
    requires
        same_behind_gap(a, b),
    ensures
        same_behind_gap(with_text(a, t), with_text(b, t)),
{
    let x = with_text(a, t);
    let y = with_text(b, t);
    if t.len() > 0 {
        assert(x.drop_first() =~= a.drop_first().push(Part::Text(t)));
        if b.len() > 0 {
            assert(y.drop_first() =~= b.drop_first().push(Part::Text(t)));
        }
    }
}

proof fn lemma_same_behind_gap_gap(a: Seq<Part>, b: Seq<Part>, required: bool)
    requires
        same_behind_gap(a, b),
    ensures
        same_behind_gap(with_gap(a, required), with_gap(b, required)),
{
    let x = with_gap(a, required);
    let y = with_gap(b, required);
    if a.len() == 1 {
        assert(x.drop_first() =~= Seq::empty());
        if b.len() == 0 {
            assert(y.drop_first() =~= Seq::empty());
        } else {
            assert(b.len() == 1);
            assert(y.drop_first() =~= Seq::empty());
        }
    } else {
        assert(a.last() == a.drop_first().last());
        if a.drop_first() == b {
            assert(x.drop_first() =~= y);
        } else {
            let shared = a.drop_first();
            assert(shared.len() == b.len() - 1);
            assert(b.last() == b.drop_first().last());
            assert(a.last() == b.last());
            assert(x.drop_first() =~= with_gap(shared, required));
            assert(y.drop_first() =~= with_gap(b.drop_first(), required));
        }
    }
}

proof fn lemma_indented_cut(lead: Seq<char>, text: Seq<char>)
    requires
        lead.len() > 0,
        blank(lead),
    ensures
        same_behind_gap(cut(lead + text).parts, cut(text).parts),
        cut(lead + text).current == cut(text).current,
        cut(lead + text).in_string == cut(text).in_string,
        cut(lead + text).escaped == cut(text).escaped,
    decreases text.len(),
{
    if text.len() == 0 {
        lemma_white_cut(lead);
        assert(lead + text =~= lead);
        assert(cut(lead).parts.drop_first() =~= cut(text).parts);
    } else {
        let c = text.last();
        lemma_indented_cut(lead, text.drop_last());
        assert((lead + text).drop_last() =~= lead + text.drop_last());
        assert((lead + text).last() == c);
        let a = cut(lead + text.drop_last());
        let b = cut(text.drop_last());
        lemma_same_behind_gap_text(a.parts, b.parts, b.current);
        let x = with_text(a.parts, b.current);
        let y = with_text(b.parts, b.current);
        lemma_same_behind_gap_gap(x, y, true);
        lemma_same_behind_gap_gap(x, y, false);
        lemma_same_behind_gap_text(with_gap(x, false), with_gap(y, false), seq![c]);
        lemma_same_behind_gap_gap(
            with_gap(x, false).push(Part::Text(seq![c])),
            with_gap(y, false).push(Part::Text(seq![c])),
            false,
        );
    }
}

proof fn lemma_trailed_parts(text: Seq<char>, trail: Seq<char>)
    requires
        trail.len() > 0,
        blank(trail),
        !cut(text).in_string,
    ensures
        whole_parts(text + trail) == with_gap(whole_parts(text), true),
        cut(text + trail).current.len() == 0,
        !cut(text + trail).in_string,
    decreases trail.len(),
{
    let init = trail.drop_last();
    assert(is_white(trail[trail.len() - 1]));
    assert((text + trail).drop_last() =~= text + init);
    assert((text + trail).last() == trail.last());
    if init.len() > 0 {
        assert forall|i: int| 0 <= i < init.len() implies is_white(#[trigger] init[i]) by {
            assert(trail[i] == init[i]);
        }
        lemma_trailed_parts(text, init);
        let gapped = with_gap(whole_parts(text), true);
        assert(with_gap(gapped, true) =~= gapped);
    } else {
        assert(text + init =~= text);
    }
}

proof fn lemma_no_last_gaps_of_gapped(p: Seq<Part>, required: bool)
    ensures
        no_last_gaps(with_gap(p, required)) == no_last_gaps(p),
{
    let q = with_gap(p, required);
    if p.len() > 0 && p.last() is Gap {
        assert(q.drop_last() =~= p.drop_last());
    } else {
        assert(q.drop_last() =~= p);
    }
}

proof fn lemma_no_first_gaps_of_gapped(p: Seq<Part>, required: bool)
    ensures
        no_last_gaps(no_first_gaps(with_gap(p, required))) == no_last_gaps(no_first_gaps(p)),
    decreases p.len(),
{
    let q = with_gap(p, required);
    if p.len() > 0 && p[0] is Gap {
        if p.len() == 1 {
            assert(q.drop_first() =~= Seq::empty());
            assert(p.drop_first() =~= Seq::empty());
        } else {
            assert(p.last() == p.drop_first().last());
            assert(q.drop_first() =~= with_gap(p.drop_first(), required));
            lemma_no_first_gaps_of_gapped(p.drop_first(), required);
        }
    } else if p.len() > 0 {
        assert(q[0] == p[0]);
        lemma_no_last_gaps_of_gapped(p, required);
    } else {
        assert(q.drop_first() =~= Seq::empty());
        assert(p =~= Seq::empty());
    }
}

/// White space at the ends of a query, outside of string literals, is not asked
/// for: with it the query is looked for loosely, and for the same as without it.
pub proof fn law_edge_white_space_asks_for_nothing(
    lead: Seq<char>,
    text: Seq<char>,
    trail: Seq<char>,
)
    requires
        blank(lead),
        blank(trail),
        trail.len() == 0 || !cut(text).in_string,
        lead.len() + trail.len() > 0,
    ensures
        query_parts(lead + text + trail) == query_parts(text),
        loosens(lead + text + trail) <==> query_parts(text).len() > 0,
{
    let indented = lead + text;
    let all = indented + trail;
    if lead.len() > 0 {
        lemma_indented_cut(lead, text);
        lemma_same_behind_gap_text(cut(indented).parts, cut(text).parts, cut(text).current);
        let a = whole_parts(indented);
        let b = whole_parts(text);
        assert(no_first_gaps(a) == no_first_gaps(b));
        assert(a[0] is Gap);
        assert(has_gap(a));
    } else {
        assert(indented =~= text);
    }
    if trail.len() > 0 {
        lemma_trailed_parts(indented, trail);
        let p = whole_parts(indented);
        lemma_no_first_gaps_of_gapped(p, true);
        assert(with_gap(p, true).last() is Gap);
        assert(has_gap(whole_parts(all)));
    } else {
        assert(all =~= indented);
    }
}

/// A text that reads as the query does stands somewhere in the bytes.
pub open spec fn stands_alike(text: Seq<char>, sensitive: bool, haystack: Seq<u8>) -> bool {
    holds_text(haystack, |s: Seq<char>| alike(s, text, sensitive))
}

/// A query that was copied with an indent, or with a line break at its end, is
/// found wherever it is found without: where it is taken loosely, where its
/// letters count as they are, and where case is ignored and a text that reads as
/// it does stands.
pub proof fn law_indented_query_is_found(
    lead: Seq<char>,
    text: Seq<char>,
    trail: Seq<char>,
    sensitive: bool,
    haystack: Seq<u8>,
)
    requires
        blank(lead),
        blank(trail),
        trail.len() == 0 || !cut(text).in_string,
        query_parts(text).len() > 0,
        finds(text, sensitive, haystack),
        sensitive || finds_loosely(text, sensitive, haystack) || stands_alike(
            text,
            sensitive,
            haystack,
        ),
    ensures
        finds(lead + text + trail, sensitive, haystack),
{
    let all = lead + text + trail;
    if lead.len() + trail.len() == 0 {
        assert(all =~= text);
    } else {
        law_edge_white_space_asks_for_nothing(lead, text, trail);
        let p = query_parts(text);
        let wanted = |s: Seq<char>| loose_at(p, s, sensitive);
        if !finds_loosely(text, sensitive, haystack) {
            let (i, j, s) = if sensitive {
                let at = choose|at: int| stands_at(haystack, encode_utf8(text), at);
                vstd::utf8::encode_utf8_valid_utf8(text);
                vstd::utf8::encode_utf8_decode_utf8(text);
                (at, at + encode_utf8(text).len(), text)
            } else {
                let similar = |s: Seq<char>| alike(s, text, sensitive);
                let (i, j) = choose|i: int, j: int| is_piece(haystack, i, j, similar);
                let s = decode_utf8(haystack.subrange(i, j));
                vstd::utf8::decode_utf8_encode_utf8(haystack.subrange(i, j));
                (i, j, s)
            };
            assert(alike(s, text, sensitive));
            assert(encode_utf8(s) == haystack.subrange(i, j));
            lemma_loose_piece(text, s, sensitive, haystack, i, j);
        }
        assert(holds_text(haystack, wanted));
        assert(finds_loosely(all, sensitive, haystack));
    }
}

proof fn lemma_loose_piece(
    text: Seq<char>,
    s: Seq<char>,
    sensitive: bool,
    haystack: Seq<u8>,
    i: int,
    j: int,
)
    requires
        query_parts(text).len() > 0,
        alike(s, text, sensitive),
        0 <= i <= j <= haystack.len(),
        encode_utf8(s) == haystack.subrange(i, j),
    ensures
        holds_text(haystack, |x: Seq<char>| loose_at(query_parts(text), x, sensitive)),
{
    let p = query_parts(text);
    let wanted = |x: Seq<char>| loose_at(p, x, sensitive);
    let rest = trim_start_of(s);
    let n = s.len() - rest.len();
    lemma_query_searchable(text);
    lemma_query_reads_itself(text, s, sensitive);
    assert(alike(text, text, true));
    lemma_query_reads_itself(text, text, true);
    lemma_trim_start(s);
    lemma_trim_start(text);
    lemma_trim_alike(s, text, sensitive);
    let t = p[0]->Text_0;
    assert(begins(rest, t, sensitive));
    assert(begins(trim_start_of(text), t, true));
    assert(same_letter(trim_start_of(text)[0], t[0], true));
    assert(t[0] == text[n]);
    assert(rest[0] == s[n]);
    assert(may_start(s[n], text[n], sensitive));
    assert(loose_at(p, rest, sensitive));
    let r = lemma_chars_are_a_piece(haystack, i, s, n, s.len() as int);
    assert(s.subrange(n, s.len() as int) =~= rest);
    assert(is_piece(haystack, r.0, r.1, wanted));
}

proof fn lemma_trim_alike(s: Seq<char>, text: Seq<char>, sensitive: bool)
    requires
        alike(s, text, sensitive),
    ensures
        trim_start_of(s).len() == trim_start_of(text).len(),
    decreases s.len(),
{
    if s.len() > 0 {
        assert(is_white(s[0]) == is_white(text[0]));
        if is_white(s[0]) {
            let x = s.drop_first();
            let y = text.drop_first();
            assert(alike(x, y, sensitive)) by {
                assert forall|k: int| 0 <= k < y.len() implies {
                    &&& same_letter(x[k], #[trigger] y[k], sensitive)
                    &&& is_white(x[k]) == is_white(y[k])
                    &&& may_start(x[k], y[k], sensitive)
                } by {
                    assert(y[k] == text[k + 1]);
                }
            }
            lemma_trim_alike(x, y, sensitive);
        }
    }
}

/// White space before or behind a sign of JSON, outside of string literals,
/// does not change what a query asks for loosely.
pub proof fn law_space_around_signs_is_free(
    before: Seq<char>,
    sign: char,
    white: char,
    rest: Seq<char>,
)
    requires
        !cut(before).in_string,
        is_structural(sign),
        is_white(white),
    ensures
        whole_parts(before.push(sign).push(white) + rest) == whole_parts(before.push(sign) + rest),
        whole_parts(before.push(white).push(sign) + rest) == whole_parts(before.push(sign) + rest),
{
    let s = cut(before);
    let plain = before.push(sign);
    let after = before.push(sign).push(white);
    let ahead = before.push(white).push(sign);
    assert(plain.drop_last() =~= before);
    assert(after.drop_last() =~= plain);
    assert(ahead.drop_last() =~= before.push(white));
    assert(before.push(white).drop_last() =~= before);
    let flushed = with_text(s.parts, s.current);
    let signed = with_gap(flushed, false).push(Part::Text(seq![sign]));
    let open = with_gap(signed, false);
    assert(open.last() == Part::Gap(false));
    assert(with_gap(with_text(open, Seq::empty()), true) =~= open);
    assert(cut(after) == cut(plain));
    let spaced = with_gap(flushed, true);
    assert(with_gap(with_text(spaced, Seq::empty()), false) =~= with_gap(flushed, false));
    let after_white = cut(before.push(white));
    assert(after_white.parts == spaced && after_white.current.len() == 0);
    assert(with_text(after_white.parts, after_white.current) == spaced);
    assert(cut(ahead) == cut_step(after_white, sign));
    assert(cut(ahead) =~= cut(plain));
    lemma_cut_same_rest(after, plain, rest);
    lemma_cut_same_rest(ahead, plain, rest);
}

/// Where white space is allowed, any amount of it will do.
pub proof fn law_gap_takes_any_white_space(
    p: Seq<Part>,
    white: Seq<char>,
    s: Seq<char>,
    sensitive: bool,
)
    requires
        p.len() > 0,
        p[0] == Part::Gap(false),
        forall|k: int| 0 <= k < white.len() ==> is_white(#[trigger] white[k]),
    ensures
        eats(p, white + s, sensitive) == eats(p, s, sensitive),
    decreases white.len(),
{
    if white.len() == 0 {
        assert(white + s =~= s);
    } else {
        assert(is_white(white[0]));
        assert((white + s).drop_first() =~= white.drop_first() + s);
        law_gap_takes_any_white_space(p, white.drop_first(), s, sensitive);
    }
}

// ---------------------------------------------------------------------------
// White space around signs, letter by letter
// ---------------------------------------------------------------------------
/// The inside of a string literal: a backslash takes the character behind it
/// along, and no quotation mark stands alone.
pub open spec fn inside_literal(s: Seq<char>) -> bool
    decreases s.len(),
{
    if s.len() == 0 {
        true
    } else if s[0] == '\\' {
        s.len() >= 2 && inside_literal(s.skip(2))
    } else {
        s[0] != '"' && inside_literal(s.skip(1))
    }
}

/// A text that is outside of string literals at its end: characters other than
/// quotation marks, and whole string literals.
pub open spec fn literals_closed(s: Seq<char>) -> bool
    decreases s.len(),
{
    ||| s.len() == 0
    ||| s.len() > 0 && s[0] != '"' && literals_closed(s.skip(1))
    ||| exists|n: int|
        0 <= n && n + 2 <= s.len() && s[0] == '"' && s[n + 1] == '"' && inside_literal(
            #[trigger] s.subrange(1, n + 1),
        ) && literals_closed(s.skip(n + 2))
}

proof fn lemma_cut_push(a: Seq<char>, c: char)
    ensures
        cut(a.push(c)) == cut_step(cut(a), c),
{
    assert(a.push(c).drop_last() =~= a);
}

proof fn lemma_cut_inside(a: Seq<char>, inner: Seq<char>)
    requires
        cut(a).in_string,
        !cut(a).escaped,
        inside_literal(inner),
    ensures
        cut(a + inner) == (Cut { current: cut(a).current + inner, ..cut(a) }),
    decreases inner.len(),
{
    let s = cut(a);
    if inner.len() == 0 {
        assert(a + inner =~= a);
        assert(s.current + inner =~= s.current);
    } else if inner[0] == '\\' {
        lemma_cut_push(a, inner[0]);
        lemma_cut_push(a.push(inner[0]), inner[1]);
        let next = a.push(inner[0]).push(inner[1]);
        lemma_cut_inside(next, inner.skip(2));
        assert(next + inner.skip(2) =~= a + inner);
        assert(s.current.push(inner[0]).push(inner[1]) + inner.skip(2) =~= s.current + inner);
    } else {
        lemma_cut_push(a, inner[0]);
        let next = a.push(inner[0]);
        lemma_cut_inside(next, inner.skip(1));
        assert(next + inner.skip(1) =~= a + inner);
        assert(s.current.push(inner[0]) + inner.skip(1) =~= s.current + inner);
    }
}

proof fn lemma_cut_closed(a: Seq<char>, rest: Seq<char>)
    requires
        !cut(a).in_string,
        !cut(a).escaped,
        literals_closed(rest),
    ensures
        !cut(a + rest).in_string,
        !cut(a + rest).escaped,
    decreases rest.len(),
{
    if rest.len() == 0 {
        assert(a + rest =~= a);
    } else if rest[0] != '"' && literals_closed(rest.skip(1)) {
        lemma_cut_push(a, rest[0]);
        lemma_cut_closed(a.push(rest[0]), rest.skip(1));
        assert(a.push(rest[0]) + rest.skip(1) =~= a + rest);
    } else {
        let n = choose|n: int|
            0 <= n && n + 2 <= rest.len() && rest[0] == '"' && rest[n + 1] == '"' && inside_literal(
                #[trigger] rest.subrange(1, n + 1),
            ) && literals_closed(rest.skip(n + 2));
        let inner = rest.subrange(1, n + 1);
        lemma_cut_push(a, '"');
        lemma_cut_inside(a.push('"'), inner);
        lemma_cut_push(a.push('"') + inner, '"');
        let next = (a.push('"') + inner).push('"');
        lemma_cut_closed(next, rest.skip(n + 2));
        assert(next + rest.skip(n + 2) =~= a + rest);
    }
}

proof fn lemma_cut_white_before(a: Seq<char>, white: Seq<char>, sign: char)
    requires
        !cut(a).in_string,
        is_structural(sign),
        blank(white),
    ensures
        !cut(a + white).in_string,
        cut((a + white).push(sign)) == cut(a.push(sign)),
    decreases white.len(),
{
    if white.len() == 0 {
        assert(a + white =~= a);
    } else {
        let init = white.drop_last();
        let w = white.last();
        assert(is_white(white[white.len() - 1]));
        assert forall|i: int| 0 <= i < init.len() implies is_white(#[trigger] init[i]) by {
            assert(white[i] == init[i]);
        }
        lemma_cut_white_before(a, init, sign);
        let before = a + init;
        assert(a + white =~= before.push(w));
        lemma_cut_push(before, w);
        let s = cut(before);
        let flushed = with_text(s.parts, s.current);
        let spaced = with_gap(flushed, true);
        assert(with_gap(with_text(spaced, Seq::empty()), false) =~= with_gap(flushed, false));
        lemma_cut_push(before, sign);
        lemma_cut_push(before.push(w), sign);
        assert(cut(before.push(w).push(sign)) =~= cut(before.push(sign)));
    }
}

proof fn lemma_cut_white_behind(a: Seq<char>, sign: char, white: Seq<char>)
    requires
        !cut(a).in_string,
        is_structural(sign),
        blank(white),
    ensures
        cut(a.push(sign) + white) == cut(a.push(sign)),
    decreases white.len(),
{
    let plain = a.push(sign);
    if white.len() == 0 {
        assert(plain + white =~= plain);
    } else {
        let init = white.drop_last();
        let w = white.last();
        assert(is_white(white[white.len() - 1]));
        assert forall|i: int| 0 <= i < init.len() implies is_white(#[trigger] init[i]) by {
            assert(white[i] == init[i]);
        }
        lemma_cut_white_behind(a, sign, init);
        assert(plain + white =~= (plain + init).push(w));
        lemma_cut_push(plain + init, w);
        lemma_cut_push(a, sign);
        let open = cut(plain).parts;
        assert(open.last() == Part::Gap(false));
        assert(with_gap(with_text(open, Seq::empty()), true) =~= open);
        assert(cut(plain + white) =~= cut(plain));
    }
}

/// Parts before the last one stay as they are.
proof fn lemma_parts_kept(a: Seq<char>, rest: Seq<char>, k: int)
    requires
        0 <= k < cut(a).parts.len() - 1,
    ensures
        k < cut(a + rest).parts.len() - 1,
        cut(a + rest).parts[k] == cut(a).parts[k],
    decreases rest.len(),
{
    if rest.len() == 0 {
        assert(a + rest =~= a);
    } else {
        lemma_parts_kept(a, rest.drop_last(), k);
        assert(a + rest =~= (a + rest.drop_last()).push(rest.last()));
        lemma_cut_push(a + rest.drop_last(), rest.last());
    }
}

proof fn lemma_text_survives(p: Seq<Part>, k: int)
    requires
        0 <= k < p.len(),
        p[k] is Text,
    ensures
        no_last_gaps(no_first_gaps(p)).len() > 0,
    decreases p.len(),
{
    if p[0] is Gap {
        assert(p.drop_first()[k - 1] == p[k]);
        lemma_text_survives(p.drop_first(), k - 1);
    } else {
        lemma_text_survives_last(p, k);
    }
}

proof fn lemma_text_survives_last(p: Seq<Part>, k: int)
    requires
        0 <= k < p.len(),
        p[k] is Text,
    ensures
        no_last_gaps(p).len() > 0,
    decreases p.len(),
{
    if p.last() is Gap {
        assert(p.drop_last()[k] == p[k]);
        lemma_text_survives_last(p.drop_last(), k);
    }
}

proof fn lemma_sign_loosens(a: Seq<char>, sign: char, rest: Seq<char>)
    requires
        !cut(a).in_string,
        is_structural(sign),
        !is_white(sign),
        sign != '"',
    ensures
        loosens(a.push(sign) + rest),
{
    let plain = a.push(sign);
    lemma_cut_push(a, sign);
    let s = cut(a);
    let flushed = with_text(s.parts, s.current);
    let gapped = with_gap(flushed, false);
    let open = cut(plain).parts;
    let k = gapped.len() as int;
    assert(open[k] == Part::Text(seq![sign]));
    assert(open[k - 1] is Gap);
    assert(open.len() == k + 2);
    lemma_parts_kept(plain, rest, k);
    lemma_parts_kept(plain, rest, k - 1);
    let all = whole_parts(plain + rest);
    assert(all[k] is Text);
    assert(all[k - 1] is Gap);
    lemma_text_survives(all, k);
}

/// White space is free around the six signs of JSON, outside of string literals:
/// whatever of it the query has before a sign and behind it, and whatever the
/// bytes have there, the query is found.
pub proof fn law_white_space_is_free(
    a: Seq<char>,
    sign: char,
    b: Seq<char>,
    asked: (Seq<char>, Seq<char>),
    stored: (Seq<char>, Seq<char>),
    sensitive: bool,
    front: Seq<u8>,
    back: Seq<u8>,
)
    requires
        sign == '{' || sign == '}' || sign == '[' || sign == ']' || sign == ':' || sign == ',',
        literals_closed(a),
        blank(asked.0),
        blank(asked.1),
        blank(stored.0),
        blank(stored.1),
    ensures
        finds(
            a + asked.0 + seq![sign] + asked.1 + b,
            sensitive,
            front + encode_utf8(a + stored.0 + seq![sign] + stored.1 + b) + back,
        ),
{
    let none = Seq::<char>::empty();
    lemma_cut_closed(none, a);
    assert(none + a =~= a);
    let plain = a.push(sign);
    let query = a + asked.0 + seq![sign] + asked.1 + b;
    let text = a + stored.0 + seq![sign] + stored.1 + b;
    lemma_spaced_cut(a, sign, asked.0, asked.1);
    lemma_spaced_cut(a, sign, stored.0, stored.1);
    lemma_cut_same_rest(a + asked.0 + seq![sign] + asked.1, plain, b);
    lemma_cut_same_rest(a + stored.0 + seq![sign] + stored.1, plain, b);
    assert(cut(query) == cut(plain + b));
    assert(cut(text) == cut(plain + b));
    lemma_sign_loosens(a, sign, b);
    let haystack = front + encode_utf8(text) + back;
    let i = front.len() as int;
    let j = i + encode_utf8(text).len();
    assert(haystack.subrange(i, j) =~= encode_utf8(text));
    assert(alike(text, text, sensitive));
    lemma_loose_piece(text, text, sensitive, haystack, i, j);
    assert(query_parts(text) == query_parts(query));
    assert(finds_loosely(query, sensitive, haystack));
}

proof fn lemma_spaced_cut(a: Seq<char>, sign: char, before: Seq<char>, behind: Seq<char>)
    requires
        !cut(a).in_string,
        is_structural(sign),
        blank(before),
        blank(behind),
    ensures
        cut(a + before + seq![sign] + behind) == cut(a.push(sign)),
{
    lemma_cut_white_before(a, before, sign);
    let ahead = (a + before).push(sign);
    assert(a + before + seq![sign] =~= ahead);
    lemma_cut_same_rest(ahead, a.push(sign), behind);
    lemma_cut_white_behind(a, sign, behind);
}

// ---------------------------------------------------------------------------
// What is found, and what is not
// ---------------------------------------------------------------------------
/// A character that stands for itself: neither white space, nor one of the six
/// signs of JSON, nor a quotation mark.
pub open spec fn plain_char(c: char) -> bool {
    &&& c != '{' && c != '}' && c != '[' && c != ']' && c != ':' && c != ','
    &&& c != '"'
    &&& c != ' ' && c != '\t' && c != '\n' && c != '\r'
    &&& !is_white(c)
}

proof fn lemma_cut_plain(a: Seq<char>, word: Seq<char>)
    requires
        !cut(a).in_string,
        !cut(a).escaped,
        forall|i: int| 0 <= i < word.len() ==> plain_char(#[trigger] word[i]),
    ensures
        cut(a + word) == (Cut { current: cut(a).current + word, ..cut(a) }),
    decreases word.len(),
{
    let s = cut(a);
    if word.len() == 0 {
        assert(a + word =~= a);
        assert(s.current + word =~= s.current);
    } else {
        let init = word.drop_last();
        assert forall|i: int| 0 <= i < init.len() implies plain_char(#[trigger] init[i]) by {
            assert(init[i] == word[i]);
        }
        lemma_cut_plain(a, init);
        assert(plain_char(word[word.len() - 1]));
        lemma_cut_push(a + init, word.last());
        assert(a + word =~= (a + init).push(word.last()));
        assert(s.current + word =~= (s.current + init).push(word.last()));
    }
}

/// A word is found where its bytes stand, and nowhere else.
pub proof fn law_word_is_found_where_it_stands(word: Seq<char>, haystack: Seq<u8>)
    requires
        forall|i: int| 0 <= i < word.len() ==> plain_char(#[trigger] word[i]),
    ensures
        finds(word, true, haystack) <==> exists|at: int|
            0 <= at <= haystack.len() - encode_utf8(word).len() && #[trigger] haystack.subrange(
                at,
                at + encode_utf8(word).len(),
            ) == encode_utf8(word),
{
    let none = Seq::<char>::empty();
    lemma_cut_plain(none, word);
    assert(none + word =~= word);
    assert(none + word =~= cut(word).current);
    assert(cut(word).parts.len() == 0);
    assert(!has_gap(whole_parts(word)));
    let needle = encode_utf8(word);
    if finds(word, true, haystack) {
        if word.len() == 0 {
            assert(needle.len() == 0);
            assert(haystack.subrange(0, 0) =~= needle);
        } else {
            let at = choose|at: int| stands_at(haystack, needle, at);
            assert(haystack.subrange(at, at + needle.len()) == needle);
        }
    }
    if exists|at: int|
        0 <= at <= haystack.len() - needle.len() && #[trigger] haystack.subrange(
            at,
            at + needle.len(),
        ) == needle {
        let at = choose|at: int|
            0 <= at <= haystack.len() - needle.len() && #[trigger] haystack.subrange(
                at,
                at + needle.len(),
            ) == needle;
        assert(stands_at(haystack, needle, at));
    }
}

/// A string literal is found where its bytes stand, and nowhere else: its white
/// space and its signs are looked for as they are.
pub proof fn law_literal_is_found_where_it_stands(inner: Seq<char>, haystack: Seq<u8>)
    requires
        inside_literal(inner),
    ensures
        finds(seq!['"'] + inner + seq!['"'], true, haystack) <==> exists|at: int|
            #[trigger] stands_at(haystack, encode_utf8(seq!['"'] + inner + seq!['"']), at),
{
    let none = Seq::<char>::empty();
    let text = seq!['"'] + inner + seq!['"'];
    lemma_cut_push(none, '"');
    lemma_cut_inside(none.push('"'), inner);
    lemma_cut_push(none.push('"') + inner, '"');
    assert(text =~= (none.push('"') + inner).push('"'));
    assert(cut(text).parts.len() == 0);
    assert(!has_gap(whole_parts(text)));
}

/// A text that stands in the bytes is found, whatever it is.
pub proof fn law_text_is_found(text: Seq<char>, sensitive: bool, front: Seq<u8>, back: Seq<u8>)
    ensures
        finds(text, sensitive, front + encode_utf8(text) + back),
{
    let needle = encode_utf8(text);
    let haystack = front + needle + back;
    let i = front.len() as int;
    let j = i + needle.len();
    assert(haystack.subrange(i, j) =~= needle);
    assert(stands_at(haystack, needle, i));
    law_loosening_loses_nothing(text, true, haystack);
    law_ignoring_case_loses_nothing(text, haystack);
}

/// Two characters of ASCII that are the same letter, or the same character.
pub open spec fn same_ascii_letter(a: char, b: char) -> bool {
    ||| a == b
    ||| 'a' <= a && a <= 'z' && a as u32 == b as u32 + 32
    ||| 'a' <= b && b <= 'z' && b as u32 == a as u32 + 32
}

/// The letters of a text in either case.
pub open spec fn in_either_case(text: Seq<char>, word: Seq<char>) -> bool {
    text.len() == word.len() && forall|k: int|
        0 <= k < word.len() ==> same_ascii_letter(#[trigger] text[k], word[k])
}

proof fn lemma_same_ascii_letter(a: char, b: char)
    requires
        a as u32 <= 0x7f,
        b as u32 <= 0x7f,
    ensures
        ascii_lower(a as u8) == ascii_lower(b as u8) <==> same_ascii_letter(a, b),
{
}

proof fn lemma_ascii_char(c: char)
    requires
        c as u32 <= 0x7f,
    ensures
        '\0' <= c <= '\u{7f}',
{
}

/// Where case is ignored, a word of ASCII is found where each of its letters
/// stands in either case, and nowhere else.
pub proof fn law_ascii_word_in_either_case(word: Seq<char>, text: Seq<char>)
    requires
        word.len() > 0,
        forall|i: int|
            0 <= i < word.len() ==> plain_char(#[trigger] word[i]) && word[i] as u32 <= 0x7f,
        forall|i: int| 0 <= i < text.len() ==> #[trigger] text[i] as u32 <= 0x7f,
    ensures
        finds(word, false, encode_utf8(text)) <==> exists|at: int|
            0 <= at <= text.len() - word.len() && in_either_case(
                #[trigger] text.subrange(at, at + word.len()),
                word,
            ),
{
    let none = Seq::<char>::empty();
    lemma_cut_plain(none, word);
    assert(none + word =~= word);
    assert(none + word =~= cut(word).current);
    assert(!has_gap(whole_parts(word)));
    assert(is_ascii_chars(word)) by {
        assert forall|i: int| 0 <= i < word.len() implies '\0' <= #[trigger] word[i] <= '\u{7f}' by {
            lemma_ascii_char(word[i]);
        }
    }
    assert(is_ascii_chars(text)) by {
        assert forall|i: int| 0 <= i < text.len() implies '\0' <= #[trigger] text[i] <= '\u{7f}' by {
            lemma_ascii_char(text[i]);
        }
    }
    let needle = encode_utf8(word);
    let haystack = encode_utf8(text);
    vstd::utf8::is_ascii_chars_encode_utf8(word);
    vstd::utf8::is_ascii_chars_encode_utf8(text);
    let n = word.len() as int;
    assert(needle.len() == n && haystack.len() == text.len());
    if finds(word, false, haystack) {
        let at = choose|at: int| ascii_stands_at(haystack, needle, at);
        assert forall|k: int| 0 <= k < n implies same_ascii_letter(
            #[trigger] text.subrange(at, at + n)[k],
            word[k],
        ) by {
            assert(text.subrange(at, at + n)[k] == text[at + k]);
            assert(ascii_lower(haystack[at + k]) == ascii_lower(needle[k]));
            lemma_same_ascii_letter(text[at + k], word[k]);
        }
        assert(in_either_case(text.subrange(at, at + n), word));
    }
    if exists|at: int|
        0 <= at <= text.len() - word.len() && in_either_case(
                #[trigger] text.subrange(at, at + word.len()),
                word,
            ) {
        let at = choose|at: int|
            0 <= at <= text.len() - word.len() && in_either_case(
                #[trigger] text.subrange(at, at + word.len()),
                word,
            );
        assert forall|k: int| 0 <= k < needle.len() implies ascii_lower(haystack[at + k])
            == ascii_lower(#[trigger] needle[k]) by {
            assert(text.subrange(at, at + n)[k] == text[at + k]);
            lemma_same_ascii_letter(text[at + k], word[k]);
        }
        assert(ascii_stands_at(haystack, needle, at));
    }
}

/// Where case is ignored, a query that is not ASCII is found where a text of the
/// same length stands whose letters are the same in lower case.
pub proof fn law_other_letters_in_either_case(
    query: Seq<char>,
    text: Seq<char>,
    front: Seq<u8>,
    back: Seq<u8>,
)
    requires
        exists|i: int| 0 <= i < query.len() && #[trigger] query[i] as u32 > 0x7f,
        text.len() == query.len(),
        forall|i: int|
            0 <= i < query.len() ==> text[i] == #[trigger] query[i] || lowered(text[i]) == lowered(
                query[i],
            ),
    ensures
        finds(query, false, front + encode_utf8(text) + back),
{
    let needle = encode_utf8(text);
    let haystack = front + needle + back;
    let i = front.len() as int;
    let j = i + needle.len();
    assert(haystack.subrange(i, j) =~= needle);
    vstd::utf8::encode_utf8_valid_utf8(text);
    vstd::utf8::encode_utf8_decode_utf8(text);
    let odd = choose|i: int| 0 <= i < query.len() && #[trigger] query[i] as u32 > 0x7f;
    assert(!is_ascii_chars(query)) by {
        assert(query[odd] as u32 > 0x7f);
    }
    let wanted = |s: Seq<char>| fold_equal(s, query);
    assert(fold_equal(text, query));
    assert(is_piece(haystack, i, j, wanted));
}

/// A text without its white space.
pub open spec fn letters(s: Seq<char>) -> Seq<char>
    decreases s.len(),
{
    if s.len() == 0 {
        Seq::empty()
    } else if is_white(s.last()) {
        letters(s.drop_last())
    } else {
        letters(s.drop_last()).push(s.last())
    }
}

proof fn lemma_letters_joined(a: Seq<char>, b: Seq<char>)
    ensures
        letters(a + b) == letters(a) + letters(b),
    decreases b.len(),
{
    if b.len() == 0 {
        assert(a + b =~= a);
        assert(letters(a) + letters(b) =~= letters(a));
    } else {
        lemma_letters_joined(a, b.drop_last());
        assert((a + b).drop_last() =~= a + b.drop_last());
        assert((a + b).last() == b.last());
        assert((letters(a) + letters(b.drop_last())).push(b.last()) =~= letters(a) + letters(
            b.drop_last(),
        ).push(b.last()));
    }
}

/// The letters of all parts.
spec fn part_letters(p: Seq<Part>) -> Seq<char>
    decreases p.len(),
{
    if p.len() == 0 {
        Seq::empty()
    } else {
        match p.last() {
            Part::Text(t) => part_letters(p.drop_last()) + letters(t),
            Part::Gap(_) => part_letters(p.drop_last()),
        }
    }
}

proof fn lemma_letters_of_one(c: char)
    ensures
        letters(seq![c]) == if is_white(c) {
            Seq::<char>::empty()
        } else {
            seq![c]
        },
{
    assert(seq![c].drop_last() =~= Seq::empty());
    assert(letters(seq![c].drop_last()) =~= Seq::empty());
    assert(Seq::<char>::empty().push(c) =~= seq![c]);
}

proof fn lemma_part_letters_push(p: Seq<Part>, x: Part)
    ensures
        part_letters(p.push(x)) == (match x {
            Part::Text(t) => part_letters(p) + letters(t),
            Part::Gap(_) => part_letters(p),
        }),
{
    assert(p.push(x).drop_last() =~= p);
}

proof fn lemma_part_letters_gap(p: Seq<Part>, required: bool)
    ensures
        part_letters(with_gap(p, required)) == part_letters(p),
{
    let q = with_gap(p, required);
    if p.len() > 0 && p.last() is Gap {
        assert(q.drop_last() =~= p.drop_last());
    } else {
        lemma_part_letters_push(p, Part::Gap(required));
    }
}

proof fn lemma_part_letters_text(p: Seq<Part>, t: Seq<char>)
    ensures
        part_letters(with_text(p, t)) == part_letters(p) + letters(t),
{
    if t.len() > 0 {
        lemma_part_letters_push(p, Part::Text(t));
    } else {
        assert(part_letters(p) + letters(t) =~= part_letters(p));
    }
}

proof fn lemma_cut_letters(text: Seq<char>)
    ensures
        part_letters(cut(text).parts) + letters(cut(text).current) == letters(text),
    decreases text.len(),
{
    let none = Seq::<char>::empty();
    if text.len() == 0 {
        assert(part_letters(cut(text).parts) + letters(cut(text).current) =~= letters(text));
    } else {
        let init = text.drop_last();
        let c = text.last();
        lemma_cut_letters(init);
        let s = cut(init);
        lemma_letters_of_one(c);
        assert(text =~= init + seq![c]);
        lemma_letters_joined(init, seq![c]);
        let after = cut(text);
        let flushed = with_text(s.parts, s.current);
        lemma_part_letters_text(s.parts, s.current);
        if after.current.len() > 0 {
            assert(s.current.push(c) =~= s.current + seq![c]);
            lemma_letters_joined(s.current, seq![c]);
            assert(part_letters(s.parts) + (letters(s.current) + letters(seq![c])) =~= part_letters(
                s.parts,
            ) + letters(s.current) + letters(seq![c]));
        } else {
            assert(letters(after.current) =~= none);
            lemma_part_letters_gap(flushed, true);
            lemma_part_letters_gap(flushed, false);
            let signed = with_gap(flushed, false).push(Part::Text(seq![c]));
            lemma_part_letters_push(with_gap(flushed, false), Part::Text(seq![c]));
            lemma_part_letters_gap(signed, false);
            assert(letters(init) + none =~= letters(init));
            assert(letters(init) + seq![c] + none =~= letters(init) + seq![c]);
        }
    }
}

proof fn lemma_part_letters_stripped(p: Seq<Part>)
    ensures
        part_letters(no_first_gaps(p)) == part_letters(p),
        part_letters(no_last_gaps(p)) == part_letters(p),
    decreases p.len(),
{
    if p.len() > 0 {
        if p[0] is Gap {
            lemma_part_letters_stripped(p.drop_first());
            lemma_part_letters_first_gap(p);
        }
        if p.last() is Gap {
            lemma_part_letters_stripped(p.drop_last());
        }
    }
}

proof fn lemma_part_letters_first_gap(p: Seq<Part>)
    requires
        p.len() > 0,
        p[0] is Gap,
    ensures
        part_letters(p.drop_first()) == part_letters(p),
    decreases p.len(),
{
    if p.len() == 1 {
        assert(p.drop_first() =~= p.drop_last());
    } else {
        lemma_part_letters_first_gap(p.drop_last());
        assert(p.drop_first().drop_last() =~= p.drop_last().drop_first());
        assert(p.drop_first().last() == p.last());
    }
}

proof fn lemma_white_has_no_letters(s: Seq<char>)
    requires
        blank(s),
    ensures
        letters(s).len() == 0,
    decreases s.len(),
{
    if s.len() > 0 {
        assert(is_white(s[s.len() - 1]));
        assert forall|i: int| 0 <= i < s.drop_last().len() implies is_white(
            #[trigger] s.drop_last()[i],
        ) by {
            assert(s[i] == s.drop_last()[i]);
        }
        lemma_white_has_no_letters(s.drop_last());
    }
}

proof fn lemma_trimmed_was_white(s: Seq<char>)
    ensures
        trim_start_of(s).len() <= s.len(),
        blank(s.take(s.len() - trim_start_of(s).len())),
    decreases s.len(),
{
    lemma_trim_start(s);
    if s.len() > 0 && is_white(s[0]) {
        let rest = s.drop_first();
        lemma_trimmed_was_white(rest);
        let n = s.len() - trim_start_of(s).len();
        let white = s.take(n);
        assert forall|i: int| 0 <= i < white.len() implies is_white(#[trigger] white[i]) by {
            if i > 0 {
                assert(rest.take(n - 1)[i - 1] == white[i]);
            }
        }
    }
}

/// What was read off a text has the letters of the parts.
proof fn lemma_left_letters(p: Seq<Part>, s: Seq<char>)
    requires
        left(p, s, true) is Some,
    ensures
        ({
            let rest = left(p, s, true)->0;
            &&& rest.len() <= s.len()
            &&& letters(s.take(s.len() - rest.len())) == part_letters(p)
            &&& s.skip(s.len() - rest.len()) == rest
        }),
    decreases p.len(),
{
    if p.len() == 0 {
        assert(s.take(0) =~= Seq::empty());
        assert(s.skip(0) =~= s);
        assert(letters(s.take(0)) =~= part_letters(p));
    } else {
        let x = p.last();
        let init = p.drop_last();
        assert(p =~= init.push(x));
        lemma_left_push(init, x, s, true);
        lemma_left_letters(init, s);
        let open = left(init, s, true)->0;
        lemma_left_one(x, open, true);
        let rest = left(p, s, true)->0;
        let n = s.len() - open.len();
        let m = s.len() - rest.len();
        match x {
            Part::Text(t) => {
                assert(open.take(t.len() as int) =~= t) by {
                    assert forall|k: int| 0 <= k < t.len() implies open[k] == t[k] by {
                        assert(same_letter(open[k], t[k], true));
                    }
                }
                assert(m == n + t.len());
                assert(s.take(m) =~= s.take(n) + t) by {
                    assert forall|k: int| n <= k < m implies s[k] == t[k - n] by {
                        assert(s.skip(n)[k - n] == s[k]);
                        assert(open.take(t.len() as int)[k - n] == open[k - n]);
                    }
                }
                lemma_letters_joined(s.take(n), t);
                assert(s.skip(m) =~= open.skip(t.len() as int));
            },
            Part::Gap(_) => {
                lemma_trim_start(open);
                lemma_trimmed_was_white(open);
                let white = open.take(open.len() - rest.len());
                lemma_white_has_no_letters(white);
                assert(s.take(m) =~= s.take(n) + white) by {
                    assert forall|k: int| n <= k < m implies s[k] == white[k - n] by {
                        assert(s.skip(n)[k - n] == s[k]);
                    }
                }
                lemma_letters_joined(s.take(n), white);
                assert(letters(s.take(n)) + letters(white) =~= letters(s.take(n)));
                assert(s.skip(m) =~= rest);
            },
        }
    }
}

/// Nothing is found but what has the letters of the query, all of them and in
/// their order: only white space may differ.
pub proof fn law_found_text_has_the_letters(query: Seq<char>, haystack: Seq<u8>) -> (found: (
    Seq<u8>,
    Seq<char>,
    Seq<u8>,
))
    requires
        finds(query, true, haystack),
    ensures
        haystack == found.0 + encode_utf8(found.1) + found.2,
        letters(found.1) == letters(query),
{
    if query.len() == 0 {
        let none = Seq::<char>::empty();
        assert(encode_utf8(none) =~= Seq::empty());
        assert(haystack =~= Seq::<u8>::empty() + encode_utf8(none) + haystack);
        (Seq::empty(), none, haystack)
    } else if finds_exactly(query, true, haystack) {
        let needle = encode_utf8(query);
        let at = choose|at: int| stands_at(haystack, needle, at);
        assert(haystack =~= haystack.take(at) + needle + haystack.skip(at + needle.len()));
        (haystack.take(at), query, haystack.skip(at + needle.len()))
    } else {
        let p = query_parts(query);
        let wanted = |s: Seq<char>| loose_at(p, s, true);
        let (i, j) = choose|i: int, j: int| is_piece(haystack, i, j, wanted);
        let s = decode_utf8(haystack.subrange(i, j));
        vstd::utf8::decode_utf8_encode_utf8(haystack.subrange(i, j));
        lemma_left_eats(p, s, true);
        lemma_left_letters(p, s);
        let n = s.len() - left(p, s, true)->0.len();
        let text = s.take(n);
        lemma_cut_letters(query);
        let done = cut(query);
        lemma_part_letters_text(done.parts, done.current);
        lemma_part_letters_stripped(whole_parts(query));
        lemma_part_letters_stripped(no_first_gaps(whole_parts(query)));
        lemma_encode_split(s, n);
        let size = encode_utf8(text).len();
        assert(haystack =~= haystack.take(i) + encode_utf8(text) + haystack.skip(i + size)) by {
            assert(haystack.subrange(i, j) =~= encode_utf8(text) + encode_utf8(s.skip(n)));
            assert forall|k: int| 0 <= k < size implies haystack[i + k] == encode_utf8(text)[k] by {
                assert(haystack.subrange(i, j)[k] == haystack[i + k]);
            }
        }
        (haystack.take(i), text, haystack.skip(i + size))
    }
}

/// Where case is ignored, a word that is not ASCII is found nowhere but where a
/// text of its length stands whose letters are the same in lower case.
pub proof fn law_other_letters_and_no_others(word: Seq<char>, haystack: Seq<u8>) -> (found: (
    Seq<u8>,
    Seq<char>,
    Seq<u8>,
))
    requires
        exists|i: int| 0 <= i < word.len() && #[trigger] word[i] as u32 > 0x7f,
        forall|i: int| 0 <= i < word.len() ==> plain_char(#[trigger] word[i]),
        finds(word, false, haystack),
    ensures
        haystack == found.0 + encode_utf8(found.1) + found.2,
        found.1.len() == word.len(),
        forall|i: int|
            0 <= i < word.len() ==> found.1[i] == #[trigger] word[i] || lowered(found.1[i])
                == lowered(word[i]),
{
    let none = Seq::<char>::empty();
    lemma_cut_plain(none, word);
    assert(none + word =~= word);
    assert(none + word =~= cut(word).current);
    assert(!has_gap(whole_parts(word)));
    let odd = choose|i: int| 0 <= i < word.len() && #[trigger] word[i] as u32 > 0x7f;
    assert(!is_ascii_chars(word)) by {
        assert(word[odd] as u32 > 0x7f);
    }
    let wanted = |s: Seq<char>| fold_equal(s, word);
    let (i, j) = choose|i: int, j: int| is_piece(haystack, i, j, wanted);
    let piece = haystack.subrange(i, j);
    let text = decode_utf8(piece);
    vstd::utf8::decode_utf8_encode_utf8(piece);
    assert(fold_equal(text, word));
    assert forall|k: int| 0 <= k < word.len() implies text[k] == #[trigger] word[k] || lowered(
        text[k],
    ) == lowered(word[k]) by {
        assert(folds(text[k], word[k]));
    }
    assert(haystack =~= haystack.take(i) + piece + haystack.skip(j));
    (haystack.take(i), text, haystack.skip(j))
}

proof fn lemma_words_cut(x: Seq<char>, white: Seq<char>, y: Seq<char>)
    requires
        x.len() > 0,
        y.len() > 0,
        white.len() > 0,
        blank(white),
        forall|i: int| 0 <= i < x.len() ==> plain_char(#[trigger] x[i]),
        forall|i: int| 0 <= i < y.len() ==> plain_char(#[trigger] y[i]),
    ensures
        query_parts(x + white + y) == seq![Part::Text(x), Part::Gap(true), Part::Text(y)],
{
    let none = Seq::<char>::empty();
    lemma_cut_plain(none, x);
    assert(none + x =~= x);
    assert(none + x =~= cut(x).current);
    lemma_trailed_parts(x, white);
    let parts = cut(x + white).parts;
    assert(with_gap(whole_parts(x), true) =~= seq![Part::Text(x), Part::Gap(true)]);
    assert(whole_parts(x + white) == parts);
    lemma_unescaped(x, white);
    lemma_cut_plain(x + white, y);
    assert(cut(x + white).current + y =~= y);
    let all = seq![Part::Text(x), Part::Gap(true), Part::Text(y)];
    assert(whole_parts(x + white + y) =~= all);
}

proof fn lemma_unescaped(a: Seq<char>, white: Seq<char>)
    requires
        !cut(a).in_string,
        !cut(a).escaped,
        blank(white),
    ensures
        !cut(a + white).escaped,
    decreases white.len(),
{
    if white.len() == 0 {
        assert(a + white =~= a);
    } else {
        let init = white.drop_last();
        assert(is_white(white[white.len() - 1]));
        assert forall|i: int| 0 <= i < init.len() implies is_white(#[trigger] init[i]) by {
            assert(white[i] == init[i]);
        }
        lemma_unescaped(a, init);
        if init.len() > 0 {
            lemma_trailed_parts(a, init);
        } else {
            assert(a + init =~= a);
        }
        assert(a + white =~= (a + init).push(white.last()));
        lemma_cut_push(a + init, white.last());
    }
}

/// White space between two words is asked for, as much of it as there may be: the
/// words are found with any white space between them, and in a text without white
/// space they are not found.
pub proof fn law_space_between_words_is_asked_for(
    x: Seq<char>,
    asked: Seq<char>,
    y: Seq<char>,
    stored: Seq<char>,
    text: Seq<char>,
)
    requires
        x.len() > 0,
        y.len() > 0,
        asked.len() > 0,
        stored.len() > 0,
        blank(asked),
        blank(stored),
        forall|i: int| 0 <= i < x.len() ==> plain_char(#[trigger] x[i]),
        forall|i: int| 0 <= i < y.len() ==> plain_char(#[trigger] y[i]),
        forall|i: int| 0 <= i < text.len() ==> !is_white(#[trigger] text[i]),
    ensures
        finds(x + asked + y, true, encode_utf8(x + stored + y)),
        finds(x + asked + y, false, encode_utf8(x + stored + y)),
        !finds(x + asked + y, true, encode_utf8(text)),
{
    let query = x + asked + y;
    let spaced = x + stored + y;
    let p = query_parts(query);
    lemma_words_cut(x, asked, y);
    lemma_words_cut(x, stored, y);
    lemma_query_searchable(query);
    let found = encode_utf8(spaced);
    assert(found.subrange(0, found.len() as int) =~= found);
    assert(alike(spaced, spaced, true));
    lemma_loose_piece(spaced, spaced, true, found, 0, found.len() as int);
    assert(has_gap(whole_parts(query))) by {
        lemma_stripped_gap(whole_parts(query), 1);
    }
    assert(finds_loosely(query, true, found));
    law_ignoring_case_loses_nothing(query, found);
    if finds(query, true, encode_utf8(text)) {
        lemma_spaced_words_need_space(x, asked, y, text);
    }
}

/// What has the words with white space between them has white space.
proof fn lemma_spaced_words_need_space(
    x: Seq<char>,
    asked: Seq<char>,
    y: Seq<char>,
    text: Seq<char>,
)
    requires
        asked.len() > 0,
        blank(asked),
        query_parts(x + asked + y) == seq![Part::Text(x), Part::Gap(true), Part::Text(y)],
        finds(x + asked + y, true, encode_utf8(text)),
    ensures
        exists|i: int| 0 <= i < text.len() && is_white(#[trigger] text[i]),
{
    let query = x + asked + y;
    let haystack = encode_utf8(text);
    vstd::utf8::encode_utf8_valid_utf8(text);
    vstd::utf8::encode_utf8_decode_utf8(text);
    let size = haystack.len() as int;
    assert(haystack.subrange(0, size) =~= haystack);
    let n = x.len() as int;
    if finds_exactly(query, true, haystack) {
        let needle = encode_utf8(query);
        let at = choose|at: int| stands_at(haystack, needle, at);
        vstd::utf8::encode_utf8_valid_utf8(query);
        vstd::utf8::encode_utf8_decode_utf8(query);
        lemma_encode_step(query, 0);
        let (a, b) = lemma_piece_inside_or_behind(haystack, 0, size, at, at + needle.len());
        assert(text.subrange(a, b) == query);
        assert(query[n] == asked[0]);
        assert(is_white(asked[0]));
        assert(text[a + n] == query[n]);
    } else {
        let p = query_parts(query);
        let wanted = |s: Seq<char>| loose_at(p, s, true);
        let (i, j) = choose|i: int, j: int| is_piece(haystack, i, j, wanted);
        let s = decode_utf8(haystack.subrange(i, j));
        assert(loose_at(p, s, true));
        if i == j {
            assert(haystack.subrange(i, j) =~= Seq::empty());
            assert(s.len() == 0);
        }
        let (a, b) = lemma_piece_inside_or_behind(haystack, 0, size, i, j);
        assert(text.subrange(a, b) == s);
        lemma_gap_behind_text(x, y, s);
        assert(text[a + n] == s[n]);
    }
}

proof fn lemma_gap_behind_text(x: Seq<char>, y: Seq<char>, s: Seq<char>)
    requires
        eats(seq![Part::Text(x), Part::Gap(true), Part::Text(y)], s, true),
    ensures
        x.len() < s.len(),
        is_white(s[x.len() as int]),
{
    let p = seq![Part::Text(x), Part::Gap(true), Part::Text(y)];
    let rest = s.skip(x.len() as int);
    assert(p[0] == Part::Text(x));
    let q = p.drop_first();
    assert(eats(q, rest, true));
    assert(q[0] == Part::Gap(true));
    assert(trim_start_of(rest).len() < rest.len());
    assert(is_white(rest[0]));
    assert(rest[0] == s[x.len() as int]);
}

proof fn lemma_stripped_gap(p: Seq<Part>, k: int)
    requires
        0 <= k < no_last_gaps(no_first_gaps(p)).len(),
        no_last_gaps(no_first_gaps(p))[k] is Gap,
    ensures
        has_gap(p),
    decreases p.len(),
{
    if p.len() > 0 && p[0] is Gap {
        assert(p[0] is Gap);
    } else {
        lemma_last_gaps_keep(p);
        assert(p[k] is Gap);
    }
}

proof fn lemma_last_gaps_keep(p: Seq<Part>)
    ensures
        no_last_gaps(p).len() <= p.len(),
        forall|k: int|
            0 <= k < no_last_gaps(p).len() ==> #[trigger] no_last_gaps(p)[k] == p[k],
    decreases p.len(),
{
    if p.len() > 0 && p.last() is Gap {
        lemma_last_gaps_keep(p.drop_last());
    }
}

} // verus!

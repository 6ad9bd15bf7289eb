//! Turning the raw bytes of Kafka into what can be shown.
//!
//! Kafka gives bytes, not strings. A body may be anything, so decoding must be
//! safe, and must say when the data is binary.

use vstd::prelude::*;
use vstd::slice::slice_subrange;
use vstd::utf8::{decode_utf8, valid_utf8};

use crate::kafka::search::{leading_text, text_of_utf8};
use crate::strings::chars_of;

verus! {

/// At most so many bytes of a body go into a row of the table. The whole body
/// is given when a message is opened.
pub const PREVIEW_BYTES: usize = 256;

/// Bytes that are not text, read with replacement characters in the places that
/// are broken.
pub uninterp spec fn repaired(bytes: Seq<u8>) -> Seq<char>;

/// Bytes read as text as far as they are text.
pub open spec fn lossy(bytes: Seq<u8>) -> Seq<char> {
    if valid_utf8(bytes) {
        decode_utf8(bytes)
    } else {
        repaired(bytes)
    }
}

/// Whether bytes are text.
pub fn is_text(bytes: &[u8]) -> (r: bool)
    ensures
        r == valid_utf8(bytes@),
{
    text_of_utf8(bytes).is_some()
}

/// `String::from_utf8_lossy` reads text as it is, and puts a replacement
/// character in the place of what is not text.
#[verifier::external_body]
fn read_lossy(bytes: &[u8]) -> (r: String)
    ensures
        r@ == lossy(bytes@),
        !valid_utf8(bytes@) ==> r@ == repaired(bytes@),
{
    String::from_utf8_lossy(bytes).into_owned()
}

/// A whole body for reading. What is not text neither fails nor is cut: it is
/// replaced, and `is_text` tells that this happened.
pub fn decode(bytes: &[u8]) -> (r: String)
    ensures
        r@ == lossy(bytes@),
{
    read_lossy(bytes)
}

/// Whether a character is a control character (the category Cc of Unicode).
pub open spec fn is_control_char(c: char) -> bool {
    c as u32 <= 0x1f || 0x7f <= c as u32 <= 0x9f
}

/// A text on one line: control characters become spaces.
pub open spec fn on_one_line(s: Seq<char>) -> Seq<char> {
    Seq::new(s.len(), |i: int| if is_control_char(s[i]) { ' ' } else { s[i] })
}

/// How long the longest beginning of the bytes is that is text and has at most
/// `max` bytes.
pub open spec fn text_len(bytes: Seq<u8>, max: int) -> int
    decreases max,
{
    if max <= 0 || valid_utf8(bytes.take(max)) {
        max
    } else {
        text_len(bytes, max - 1)
    }
}

/// A short preview of a body on one line.
pub open spec fn previewed(bytes: Seq<u8>, max_bytes: int) -> Seq<char> {
    if bytes.len() > max_bytes {
        on_one_line(decode_utf8(bytes.take(text_len(bytes, max_bytes)))).push('…')
    } else {
        on_one_line(lossy(bytes))
    }
}

fn is_control(c: char) -> (r: bool)
    ensures
        r == is_control_char(c),
{
    let v: u32 = c as u32;
    v <= 0x1f || (0x7f <= v && v <= 0x9f)
}

fn one_line(text: &str) -> (r: String)
    ensures
        r@ == on_one_line(text@),
{
    let chars = chars_of(text);
    let mut out = String::new();
    let mut i: usize = 0;
    proof {
        assert(on_one_line(chars@).take(0) =~= Seq::empty());
    }
    while i < chars.len()
        invariant
            i <= chars@.len(),
            out@ == on_one_line(chars@).take(i as int),
        decreases chars@.len() - i,
    {
        if is_control(chars[i]) {
            out.push(' ');
        } else {
            out.push(chars[i]);
        }
        proof {
            assert(on_one_line(chars@).take(i + 1) =~= on_one_line(chars@).take(i as int).push(
                on_one_line(chars@)[i as int],
            ));
        }
        i += 1;
    }
    proof {
        assert(on_one_line(chars@).take(i as int) =~= on_one_line(chars@));
    }
    out
}

proof fn lemma_text_len(bytes: Seq<u8>, max: int, n: int)
    requires
        0 <= n <= max <= bytes.len(),
        valid_utf8(bytes.take(n)),
        forall|m: int| n < m <= max ==> !valid_utf8(#[trigger] bytes.take(m)),
    ensures
        text_len(bytes, max) == n,
    decreases max,
{
    if n < max {
        lemma_text_len(bytes, max - 1, n);
    }
}

/// A short preview for a row of the table. It is cut between characters, and
/// control characters become spaces, so that a line break inside a body does
/// not break the row.
pub fn preview(bytes: &[u8], max_bytes: usize) -> (r: String)
    ensures
        r@ == previewed(bytes@, max_bytes as int),
{
    if bytes.len() > max_bytes {
        let head = slice_subrange(bytes, 0, max_bytes);
        let text = leading_text(head);
        proof {
            let n = vstd::utf8::encode_utf8(text@).len() as int;
            vstd::utf8::encode_utf8_valid_utf8(text@);
            vstd::utf8::encode_utf8_decode_utf8(text@);
            assert(bytes@.take(n) =~= head@.take(n));
            assert forall|m: int| n < m <= max_bytes implies !valid_utf8(
                #[trigger] bytes@.take(m),
            ) by {
                assert(bytes@.take(m) =~= head@.take(m));
            }
            lemma_text_len(bytes@, max_bytes as int, n);
        }
        let mut out = one_line(text);
        out.push('…');
        out
    } else {
        let text = decode(bytes);
        one_line(text.as_str())
    }
}

/// What a text in quotes of JSON holds, where it is such a text.
pub uninterp spec fn json_string(text: Seq<char>) -> Option<Seq<char>>;

/// `serde_json::from_str` into a `String` reads a string literal of JSON.
#[verifier::external_body]
fn read_json_string(text: &str) -> (r: Option<String>)
    ensures
        match (r, json_string(text@)) {
            (Some(s), Some(expected)) => s@ == expected,
            (None, None) => true,
            _ => false,
        },
{
    serde_json::from_str::<String>(text).ok()
}

/// A string of JSON without its quotes, anything else as it is.
pub open spec fn unquoted(json: Seq<char>) -> Seq<char> {
    match json_string(json) {
        Some(inner) => inner,
        None => json,
    }
}

/// Takes the quotes off a string of JSON. Anything else stays as it is.
pub fn unquote(json: &str) -> (r: String)
    ensures
        r@ == unquoted(json@),
{
    unquote_read(read_json_string(json), json)
}

/// The inside of a string of JSON where one was read, else the text itself.
pub fn unquote_read(inner: Option<String>, json: &str) -> (r: String)
    ensures
        r@ == (match inner {
            Some(s) => s@,
            None => json@,
        }),
{
    match inner {
        Some(s) => s,
        None => json.to_owned(),
    }
}

/// What came of decoding a body or a key: nothing when there is no decoder.
pub type Decoded = Option<Result<String, String>>;

pub open spec fn key_text(decoded: Decoded, raw: Seq<u8>) -> Seq<char> {
    match decoded {
        Some(Ok(json)) => unquoted(json@),
        _ => lossy(raw),
    }
}

/// A key as it is shown. A key has a schema of its own, so what is given here
/// is what its own decoder made of it.
///
/// A failure to decode is silent: a plain string key on a topic with a schema
/// is common, and it is shown as the bytes it is. A string loses its quotes.
pub fn key(decoded: Decoded, raw: &[u8]) -> (r: String)
    ensures
        r@ == key_text(decoded, raw@),
{
    match decoded {
        Some(Ok(json)) => unquote(json.as_str()),
        _ => decode(raw),
    }
}

/// What came of an attempt to decode a body. Both fields are empty when there
/// is no decoder: the body is shown as it is.
pub struct Rendered {
    pub decoded: Option<String>,
    pub error: Option<String>,
}

impl Default for Rendered {
    fn default() -> (r: Self)
        ensures
            r.decoded is None,
            r.error is None,
    {
        Rendered { decoded: None, error: None }
    }
}

impl Rendered {
    /// Whether to show the body as binary. One that was decoded is not: what is
    /// shown then is text.
    pub fn binary(&self, raw: &[u8]) -> (r: bool)
        ensures
            r == (self.decoded is None && !valid_utf8(raw@)),
    {
        self.decoded.is_none() && !is_text(raw)
    }
}

/// What a row shows of a decoded body. One message of a foreign format is an
/// ordinary thing: it is shown as text, and it is said what happened.
pub fn render(decoded: Decoded) -> (r: Rendered)
    ensures
        r.decoded == (match decoded {
            Some(Ok(json)) => Some(json),
            _ => None,
        }),
        r.error == (match decoded {
            Some(Err(e)) => Some(e),
            _ => None,
        }),
{
    match decoded {
        None => Rendered::default(),
        Some(Ok(json)) => Rendered { decoded: Some(json), error: None },
        Some(Err(e)) => Rendered { decoded: None, error: Some(e) },
    }
}

/// A whole body as the viewer shows it.
pub struct Body {
    pub value: String,
    pub binary: bool,
    pub decode_error: Option<String>,
    /// The names of the enum values of the schema. Empty where the body was not
    /// decoded: they would come from a foreign schema.
    pub enum_values: Vec<String>,
}

/// What came of decoding a body together with the names of its enum values.
pub type DecodedBody = Option<Result<(String, Vec<String>), String>>;

/// A whole body: decoded, or its bytes as text.
pub fn body(decoded: DecodedBody, raw: &[u8]) -> (r: Body)
    ensures
        match decoded {
            Some(Ok((value, enums))) => r.value == value && r.enum_values == enums && !r.binary
                && r.decode_error is None,
            Some(Err(e)) => r.value@ == lossy(raw@) && r.enum_values@.len() == 0 && r.binary
                == !valid_utf8(raw@) && r.decode_error == Some(e),
            None => r.value@ == lossy(raw@) && r.enum_values@.len() == 0 && r.binary
                == !valid_utf8(raw@) && r.decode_error is None,
        },
{
    match decoded {
        Some(Ok((value, enum_values))) => Body {
            value,
            binary: false,
            decode_error: None,
            enum_values,
        },
        Some(Err(e)) => Body {
            value: decode(raw),
            binary: !is_text(raw),
            decode_error: Some(e),
            enum_values: Vec::new(),
        },
        None => Body {
            value: decode(raw),
            binary: !is_text(raw),
            decode_error: None,
            enum_values: Vec::new(),
        },
    }
}

/// A preview never has more characters than the bytes it may take, and one for
/// the ellipsis.
pub proof fn law_preview_is_short(bytes: Seq<u8>, max_bytes: int)
    requires
        max_bytes >= 0,
        bytes.len() > max_bytes,
    ensures
        previewed(bytes, max_bytes).len() <= max_bytes + 1,
{
    lemma_text_len_bounds(bytes, max_bytes);
    let head = bytes.take(text_len(bytes, max_bytes));
    vstd::utf8::decode_utf8_encode_utf8(head);
    lemma_encoding_is_no_shorter(decode_utf8(head));
}

proof fn lemma_text_len_bounds(bytes: Seq<u8>, max: int)
    requires
        0 <= max <= bytes.len(),
    ensures
        0 <= text_len(bytes, max) <= max,
        valid_utf8(bytes.take(text_len(bytes, max))),
    decreases max,
{
    if max > 0 && !valid_utf8(bytes.take(max)) {
        lemma_text_len_bounds(bytes, max - 1);
    } else if max == 0 {
        assert(bytes.take(0) =~= Seq::empty());
    }
}

proof fn lemma_encoding_is_no_shorter(chars: Seq<char>)
    ensures
        chars.len() <= vstd::utf8::encode_utf8(chars).len(),
    decreases chars.len(),
{
    if chars.len() > 0 {
        lemma_encoding_is_no_shorter(chars.drop_first());
    }
}

/// A shown text is a text, character by character, but for control characters: in
/// the place of each stands a space.
pub open spec fn same_but_controls(shown: Seq<char>, text: Seq<char>) -> bool {
    &&& shown.len() == text.len()
    &&& forall|k: int|
        0 <= k < text.len() ==> #[trigger] shown[k] == (if text[k] as u32 <= 0x1f || (0x7f <= text[k] as u32
            && text[k] as u32 <= 0x9f) {
            ' '
        } else {
            text[k]
        })
}

/// A text that fits is shown whole. Of one that does not, as much is shown as is
/// whole characters and fits, and an ellipsis behind it.
pub proof fn law_preview_is_the_beginning_of_the_text(text: Seq<char>, max_bytes: int) -> (n: int)
    requires
        max_bytes >= 0,
    ensures
        ({
            let bytes = vstd::utf8::encode_utf8(text);
            let shown = previewed(bytes, max_bytes);
            if bytes.len() <= max_bytes {
                same_but_controls(shown, text)
            } else {
                &&& 0 <= n <= max_bytes
                &&& valid_utf8(bytes.take(n))
                &&& forall|m: int| n < m <= max_bytes ==> !valid_utf8(#[trigger] bytes.take(m))
                &&& shown.len() > 0 && shown.last() == '…'
                &&& same_but_controls(shown.drop_last(), decode_utf8(bytes.take(n)))
            }
        }),
{
    let bytes = vstd::utf8::encode_utf8(text);
    vstd::utf8::encode_utf8_valid_utf8(text);
    vstd::utf8::encode_utf8_decode_utf8(text);
    if bytes.len() > max_bytes {
        lemma_text_len_bounds(bytes, max_bytes);
        lemma_text_len_greatest(bytes, max_bytes);
        let n = text_len(bytes, max_bytes);
        let shown = previewed(bytes, max_bytes);
        assert(shown.drop_last() =~= on_one_line(decode_utf8(bytes.take(n))));
        n
    } else {
        0
    }
}

proof fn lemma_text_len_greatest(bytes: Seq<u8>, max: int)
    requires
        0 <= max <= bytes.len(),
    ensures
        forall|m: int| text_len(bytes, max) < m <= max ==> !valid_utf8(#[trigger] bytes.take(m)),
    decreases max,
{
    if max > 0 && !valid_utf8(bytes.take(max)) {
        lemma_text_len_greatest(bytes, max - 1);
    }
}

/// A key is shown as the text it is, where nothing decodes it or decoding fails;
/// a decoded one that is no string in quotes is shown as it was decoded.
pub proof fn law_key_is_shown_as_it_is(key: Seq<char>, decoded: Decoded)
    requires
        decoded matches Some(Ok(json)) ==> json@ == key && json_string(key) is None,
    ensures
        key_text(decoded, vstd::utf8::encode_utf8(key)) == key,
{
    vstd::utf8::encode_utf8_valid_utf8(key);
    vstd::utf8::encode_utf8_decode_utf8(key);
}

} // verus!

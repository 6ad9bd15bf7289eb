//! Sending a message: from what was typed to the bytes, and what to say of it
//! before it is sent.

use vstd::prelude::*;
use vstd::utf8::encode_utf8;

use crate::kafka::hex;
use crate::kafka::types::{
    IssueSeverity, PayloadFormat, PayloadIssue, ProduceRecord, ProduceRequest,
};
use crate::strings::{blank, is_blank};

verus! {

/// What becomes of a typed body.
#[derive(Debug)]
pub enum Encoding {
    /// These bytes are sent.
    Bytes(Vec<u8>),
    /// The schema of the topic encodes it as this message of a `.proto`.
    Proto(String),
    /// The schema of the topic encodes it, by a subject of the registry if one
    /// was picked.
    Avro(Option<String>),
    JsonSchema(Option<String>),
}

pub const NOT_CONNECTED: &'static str = "not connected to a cluster";

pub const PICK_A_MESSAGE: &'static str = "pick the message type to encode with";

/// A typed body is turned into bytes.
///
/// JSON is not examined: a body that is no JSON is sent as it was typed, and to
/// warn of it is another matter. The formats with a schema, and hex, either
/// give bytes or give none, and there is nothing to be sent then.
pub open spec fn planned(
    request: ProduceRequest,
    connected: bool,
    r: Result<Encoding, String>,
) -> bool {
    match request.format {
        PayloadFormat::Text | PayloadFormat::Json => {
            r matches Ok(Encoding::Bytes(b)) && b@ == encode_utf8(request.payload@)
        },
        PayloadFormat::Hex => match (hex::decoded(request.payload@), r) {
            (Ok(bytes), Ok(Encoding::Bytes(b))) => b@ == bytes,
            (Err(wanted), Err(e)) => e@ == wanted,
            _ => false,
        },
        PayloadFormat::Proto => if !connected {
            r matches Err(e) && e@ == NOT_CONNECTED@
        } else if request.message is Some && request.message->0@.len() > 0 {
            r matches Ok(Encoding::Proto(m)) && m@ == request.message->0@
        } else {
            r matches Err(e) && e@ == PICK_A_MESSAGE@
        },
        PayloadFormat::Avro => if !connected {
            r matches Err(e) && e@ == NOT_CONNECTED@
        } else {
            r matches Ok(Encoding::Avro(s)) && s == request.subject
        },
        PayloadFormat::JsonSchema => if !connected {
            r matches Err(e) && e@ == NOT_CONNECTED@
        } else {
            r matches Ok(Encoding::JsonSchema(s)) && s == request.subject
        },
    }
}

/// Turns a typed body into bytes, or says what is to encode it.
pub fn encode_payload(request: &ProduceRequest, connected: bool) -> (r: Result<Encoding, String>)
    ensures
        planned(*request, connected, r),
{
    match request.format {
        PayloadFormat::Text | PayloadFormat::Json => Ok(
            Encoding::Bytes(vstd::slice::slice_to_vec(request.payload.as_str().as_bytes())),
        ),
        PayloadFormat::Hex => match hex::decode(request.payload.as_str()) {
            Ok(bytes) => Ok(Encoding::Bytes(bytes)),
            Err(e) => Err(e),
        },
        PayloadFormat::Proto => {
            if !connected {
                return Err(NOT_CONNECTED.to_owned());
            }
            match &request.message {
                Some(message) if !message.as_str().is_empty() => Ok(
                    Encoding::Proto(message.clone()),
                ),
                _ => Err(PICK_A_MESSAGE.to_owned()),
            }
        },
        PayloadFormat::Avro => if connected {
            Ok(Encoding::Avro(request.subject.clone()))
        } else {
            Err(NOT_CONNECTED.to_owned())
        },
        PayloadFormat::JsonSchema => if connected {
            Ok(Encoding::JsonSchema(request.subject.clone()))
        } else {
            Err(NOT_CONNECTED.to_owned())
        },
    }
}

/// What `serde_json` says against a text, where it is no JSON.
pub uninterp spec fn json_fault(text: Seq<char>) -> Option<Seq<char>>;

/// `serde_json::from_str` reads a text as JSON; the text of its error says why
/// it could not.
#[verifier::external_body]
fn read_json(text: &str) -> (r: Option<String>)
    ensures
        match (r, json_fault(text@)) {
            (Some(e), Some(expected)) => e@ == expected,
            (None, None) => true,
            _ => false,
        },
{
    serde_json::from_str::<serde_json::Value>(text).err().map(|e| e.to_string())
}

/// What to say of a body of JSON: nothing of a blank one, a warning of one that
/// cannot be read. It is sent all the same: it may have been meant so.
pub fn json_issue(payload: &str, fault: Option<String>) -> (r: Option<PayloadIssue>)
    ensures
        r == (if blank(payload@) || fault is None {
            None
        } else {
            Some(PayloadIssue { severity: IssueSeverity::Warning, message: fault->0 })
        }),
{
    if is_blank(payload) {
        return None;
    }
    match fault {
        Some(message) => Some(PayloadIssue { severity: IssueSeverity::Warning, message }),
        None => None,
    }
}

/// What is said of a body, exactly.
pub open spec fn issue_of(
    request: ProduceRequest,
    connected: bool,
    schema_error: Option<String>,
    r: Option<PayloadIssue>,
) -> bool {
    if request.format == PayloadFormat::Json {
        match json_fault(request.payload@) {
            Some(fault) if !blank(request.payload@) => r matches Some(issue) && issue.severity
                == IssueSeverity::Warning && issue.message@ == fault,
            _ => r is None,
        }
    } else {
        exists|plan: Result<Encoding, String>|
            planned(request, connected, plan) && #[trigger] refused(plan, schema_error, r)
    }
}

/// What is said of a body that is or is not encoded.
pub open spec fn refused(
    plan: Result<Encoding, String>,
    schema_error: Option<String>,
    r: Option<PayloadIssue>,
) -> bool {
    match plan {
        Err(e) => r matches Some(issue) && issue.severity == IssueSeverity::Error
            && issue.message@ == e@,
        Ok(Encoding::Bytes(_)) => r is None,
        Ok(_) => r == (match schema_error {
            Some(message) => Some(PayloadIssue { severity: IssueSeverity::Error, message }),
            None => None,
        }),
    }
}

/// What to say of a body while it is typed. `schema_error` is what the schema
/// said where the body is to be encoded by one.
///
/// It rests on what the sending rests on, so that the two cannot part.
pub fn check_produce_payload(
    request: &ProduceRequest,
    connected: bool,
    schema_error: Option<String>,
) -> (r: Option<PayloadIssue>)
    ensures
        issue_of(*request, connected, schema_error, r),
{
    if request.format == PayloadFormat::Json {
        return json_issue(request.payload.as_str(), read_json(request.payload.as_str()));
    }
    let plan = encode_payload(request, connected);
    let ghost known = plan;
    let r = match plan {
        Err(message) => Some(PayloadIssue { severity: IssueSeverity::Error, message }),
        Ok(Encoding::Bytes(_)) => None,
        Ok(_) => match schema_error {
            Some(message) => Some(PayloadIssue { severity: IssueSeverity::Error, message }),
            None => None,
        },
    };
    proof {
        assert(refused(known, schema_error, r));
    }
    r
}

/// A body that is bytes as it was typed is never refused, and JSON least of all.
pub proof fn law_json_is_never_refused(
    request: ProduceRequest,
    connected: bool,
    schema_error: Option<String>,
    r: Option<PayloadIssue>,
)
    requires
        request.format == PayloadFormat::Json || request.format == PayloadFormat::Text,
        issue_of(request, connected, schema_error, r),
    ensures
        r matches Some(issue) ==> issue.severity == IssueSeverity::Warning,
{
}

/// An error is shown exactly where the body gives no bytes: where turning it
/// into bytes fails, or where the schema that is to encode it does.
pub proof fn law_error_is_shown_where_sending_fails(
    request: ProduceRequest,
    connected: bool,
    schema_error: Option<String>,
    plan: Result<Encoding, String>,
    r: Option<PayloadIssue>,
)
    requires
        planned(request, connected, plan),
        issue_of(request, connected, schema_error, r),
    ensures
        (r is Some && r->0.severity == IssueSeverity::Error) <==> (plan is Err || (!(plan->Ok_0 is Bytes)
            && schema_error is Some)),
{
}

/// Makes the record to send. An empty key is no key, not a key of no length: on
/// the difference rest the choice of the partition and compaction.
pub fn produce_record(request: ProduceRequest, payload: Vec<u8>) -> (r: ProduceRecord)
    ensures
        r.topic == request.topic,
        r.partition == request.partition,
        r.headers == request.headers,
        r.payload == payload,
        r.key is None <==> request.key@.len() == 0,
        r.key matches Some(key) ==> key@ == encode_utf8(request.key@),
{
    let key = if request.key.as_str().is_empty() {
        None
    } else {
        Some(vstd::slice::slice_to_vec(request.key.as_str().as_bytes()))
    };
    ProduceRecord {
        topic: request.topic,
        partition: request.partition,
        key,
        headers: request.headers,
        payload,
    }
}

/// A body of text or of JSON is sent as it was typed, byte for byte, whether
/// there is a cluster or not, and whatever else was picked.
pub proof fn law_text_is_sent_as_it_was_typed(
    request: ProduceRequest,
    connected: bool,
    plan: Result<Encoding, String>,
)
    requires
        request.format == PayloadFormat::Text || request.format == PayloadFormat::Json,
        planned(request, connected, plan),
    ensures
        plan is Ok,
        plan->Ok_0 is Bytes,
        plan->Ok_0->Bytes_0@ == encode_utf8(request.payload@),
{
}

/// Bytes that were printed in hexadecimal are sent as these bytes again.
pub proof fn law_printed_bytes_are_sent_again(
    request: ProduceRequest,
    connected: bool,
    plan: Result<Encoding, String>,
    bytes: Seq<u8>,
)
    requires
        request.format == PayloadFormat::Hex,
        request.payload@ == hex::encoded(bytes),
        planned(request, connected, plan),
    ensures
        plan is Ok,
        plan->Ok_0 is Bytes,
        plan->Ok_0->Bytes_0@ == bytes,
{
    hex::law_printed_reads_back(bytes);
}

/// A format with a schema needs a cluster, and gives the schema to encode by as
/// it was picked: for a `.proto` the message, which must be picked, for the
/// others the subject, which need not.
pub proof fn law_schema_encodes_what_was_picked(
    request: ProduceRequest,
    connected: bool,
    plan: Result<Encoding, String>,
)
    requires
        request.format == PayloadFormat::Proto || request.format == PayloadFormat::Avro
            || request.format == PayloadFormat::JsonSchema,
        planned(request, connected, plan),
    ensures
        !connected ==> plan is Err && plan->Err_0@ == "not connected to a cluster"@,
        connected && request.format == PayloadFormat::Avro ==> plan == Ok::<Encoding, String>(
            Encoding::Avro(request.subject),
        ),
        connected && request.format == PayloadFormat::JsonSchema ==> plan == Ok::<Encoding, String>(
            Encoding::JsonSchema(request.subject),
        ),
        connected && request.format == PayloadFormat::Proto && (request.message is None
            || request.message->0@ == ""@) ==> plan is Err && plan->Err_0@
            == "pick the message type to encode with"@,
        connected && request.format == PayloadFormat::Proto && request.message is Some
            && request.message->0@ != ""@ ==> plan is Ok && plan->Ok_0 is Proto
            && plan->Ok_0->Proto_0@ == request.message->0@,
{
    reveal_strlit("");
    if request.message is Some && request.message->0@.len() == 0 {
        assert(request.message->0@ =~= ""@);
    }
}

/// A body of JSON that cannot be read is warned of with the reason, unless it is
/// blank; one that can be read is not.
pub proof fn law_broken_json_is_warned_of(
    request: ProduceRequest,
    connected: bool,
    schema_error: Option<String>,
    r: Option<PayloadIssue>,
)
    requires
        request.format == PayloadFormat::Json,
        issue_of(request, connected, schema_error, r),
    ensures
        blank(request.payload@) ==> r is None,
        json_fault(request.payload@) is None ==> r is None,
        !blank(request.payload@) && json_fault(request.payload@) is Some ==> r is Some
            && r->0.message@ == json_fault(request.payload@)->0 && r->0.severity
            == IssueSeverity::Warning,
{
}

} // verus!

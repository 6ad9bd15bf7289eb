//! Lenses: how to show a message that came in an envelope.
//!
//! Change data capture by Debezium and data carried by Kafka Connect put what
//! matters inside an envelope. Such bodies can be read without any lens, but
//! then every row starts with the same description of types, or hides the
//! operation.
//!
//! A lens is independent of the format: it works on what was decoded. It
//! changes the preview of a row and gives the mark of the operation; the opened
//! body is shown whole.
//!
//! Two limits keep it cheap: before a body is parsed, its bytes are searched
//! for the keys of an envelope, and a body that is too large is not parsed.

use vstd::prelude::*;
use vstd::std_specs::convert::FromSpecImpl;
use vstd::utf8::encode_utf8;

use crate::kafka::search::stands_at;
use crate::strings::same_text;

verus! {

/// The largest body that a lens looks into.
pub const MAX_BYTES: usize = 262_144;

/// Which envelope it is.
#[derive(Debug, Clone, Copy, PartialEq, Eq, Structural)]
pub enum Lens {
    /// `{"schema": {...}, "payload": {...}}`.
    Connect,
    /// `{"before": ..., "after": ..., "source": ..., "op": "u"}`.
    Debezium,
}

/// What to do with the bodies of the open topic.
#[derive(Debug, Clone, Copy, PartialEq, Eq, Structural)]
pub enum LensMode {
    /// Recognise the envelope of each body.
    Auto,
    /// Show the envelope. This is the user's answer, and recognising must not
    /// overrule it.
    Off,
    Fixed(Lens),
}

impl Default for LensMode {
    fn default() -> (r: Self)
        ensures
            r == LensMode::Auto,
    {
        LensMode::Auto
    }
}

/// The choice that is kept with a topic.
#[derive(Debug, Clone, Copy, PartialEq, Eq, Structural)]
pub enum LensSetting {
    Off,
    Connect,
    Debezium,
}

pub open spec fn mode_of(setting: Option<LensSetting>) -> LensMode {
    match setting {
        None => LensMode::Auto,
        Some(LensSetting::Off) => LensMode::Off,
        Some(LensSetting::Connect) => LensMode::Fixed(Lens::Connect),
        Some(LensSetting::Debezium) => LensMode::Fixed(Lens::Debezium),
    }
}

impl From<Option<LensSetting>> for LensMode {
    /// Nothing chosen means that recognising decides.
    fn from(setting: Option<LensSetting>) -> (r: Self) {
        match setting {
            None => LensMode::Auto,
            Some(LensSetting::Off) => LensMode::Off,
            Some(LensSetting::Connect) => LensMode::Fixed(Lens::Connect),
            Some(LensSetting::Debezium) => LensMode::Fixed(Lens::Debezium),
        }
    }
}

impl FromSpecImpl<Option<LensSetting>> for LensMode {
    open spec fn obeys_from_spec() -> bool {
        true
    }

    open spec fn from_spec(setting: Option<LensSetting>) -> Self {
        mode_of(setting)
    }
}

/// What a lens made of a body.
pub struct Lensed {
    /// The mark of the operation, as Debezium writes it.
    pub tag: Option<String>,
    /// What to show in the row in place of the body.
    pub preview: Option<String>,
}

impl Default for Lensed {
    fn default() -> (r: Self)
        ensures
            r.tag is None,
            r.preview is None,
    {
        Lensed { tag: None, preview: None }
    }
}

/// A field of an object of JSON.
pub struct Leaf {
    pub name: String,
    /// The value in compact JSON.
    pub text: String,
    pub null: bool,
    /// The value where it is a string.
    pub string: Option<String>,
}

/// A field with the fields of its value, where that is an object.
pub struct Node {
    pub own: Leaf,
    pub object: bool,
    pub fields: Vec<Leaf>,
}

/// As much of a parsed body as a lens reads.
pub struct Document {
    pub object: bool,
    pub fields: Vec<Node>,
}

#[verifier::ext_equal]
pub struct LeafView {
    pub name: Seq<char>,
    pub text: Seq<char>,
    pub null: bool,
    pub string: Option<Seq<char>>,
}

#[verifier::ext_equal]
pub struct NodeView {
    pub own: LeafView,
    pub object: bool,
    pub fields: Seq<LeafView>,
}

#[verifier::ext_equal]
pub struct DocumentView {
    pub object: bool,
    pub fields: Seq<NodeView>,
}

pub open spec fn text_view(s: Option<String>) -> Option<Seq<char>> {
    match s {
        Some(s) => Some(s@),
        None => None,
    }
}

impl View for Leaf {
    type V = LeafView;

    open spec fn view(&self) -> LeafView {
        LeafView {
            name: self.name@,
            text: self.text@,
            null: self.null,
            string: text_view(self.string),
        }
    }
}

pub open spec fn leaves(fields: Seq<Leaf>) -> Seq<LeafView> {
    Seq::new(fields.len(), |i: int| fields[i]@)
}

impl View for Node {
    type V = NodeView;

    open spec fn view(&self) -> NodeView {
        NodeView { own: self.own@, object: self.object, fields: leaves(self.fields@) }
    }
}

impl View for Document {
    type V = DocumentView;

    open spec fn view(&self) -> DocumentView {
        DocumentView {
            object: self.object,
            fields: Seq::new(self.fields@.len(), |i: int| self.fields@[i]@),
        }
    }
}

/// A body parsed as JSON, where it is JSON.
pub uninterp spec fn parsed(body: Seq<u8>) -> Option<DocumentView>;

/// `serde_json::from_slice` parses a body. Of the value it gives this keeps the
/// fields of the object and of the objects in it, each with its compact text.
#[verifier::external_body]
fn parse(body: &[u8]) -> (r: Option<Document>)
    ensures
        match (r, parsed(body@)) {
            (Some(d), Some(v)) => d@ == v,
            (None, None) => true,
            _ => false,
        },
{
    let value = serde_json::from_slice::<serde_json::Value>(body).ok()?;
    let leaf = |(name, v): (&String, &serde_json::Value)| Leaf {
        name: name.clone(),
        text: v.to_string(),
        null: v.is_null(),
        string: v.as_str().map(String::from),
    };
    let node = |(name, v): (&String, &serde_json::Value)| Node {
        own: leaf((name, v)),
        object: v.is_object(),
        fields: v.as_object().into_iter().flatten().map(leaf).collect(),
    };
    let fields = value.as_object().into_iter().flatten().map(node).collect();
    Some(Document { object: value.is_object(), fields })
}

/// The field of an object under a name.
pub open spec fn field(fields: Seq<LeafView>, name: Seq<char>) -> Option<LeafView>
    decreases fields.len(),
{
    if fields.len() == 0 {
        None
    } else if fields[0].name == name {
        Some(fields[0])
    } else {
        field(fields.drop_first(), name)
    }
}

pub open spec fn node_field(fields: Seq<NodeView>, name: Seq<char>) -> Option<NodeView>
    decreases fields.len(),
{
    if fields.len() == 0 {
        None
    } else if fields[0].own.name == name {
        Some(fields[0])
    } else {
        node_field(fields.drop_first(), name)
    }
}

pub open spec fn string_field(fields: Seq<LeafView>, name: Seq<char>) -> Option<Seq<char>> {
    match field(fields, name) {
        Some(leaf) => leaf.string,
        None => None,
    }
}

/// What a Connect envelope carries: there is a `schema` that describes a
/// structure, and a `payload`.
pub open spec fn connect_payload(d: DocumentView) -> Option<NodeView> {
    match node_field(d.fields, "schema"@) {
        Some(schema) => if d.object && schema.object && string_field(schema.fields, "type"@) == Some(
            "struct"@,
        ) {
            node_field(d.fields, "payload"@)
        } else {
            None
        },
        None => None,
    }
}

pub open spec fn known_operation(op: Option<Seq<char>>) -> bool {
    op == Some("c"@) || op == Some("u"@) || op == Some("d"@) || op == Some("r"@) || op == Some("t"@)
        || op == Some("m"@)
}

/// A body of Debezium: a known operation, and one of the fields beside it.
pub open spec fn debezium_fields(object: bool, fields: Seq<LeafView>) -> bool {
    object && known_operation(string_field(fields, "op"@)) && (field(fields, "before"@) is Some
        || field(fields, "after"@) is Some || field(fields, "source"@) is Some)
}

/// The first of two fields that is there and not null, in compact JSON.
pub open spec fn picked(fields: Seq<LeafView>, first: Seq<char>, second: Seq<char>) -> Option<
    Seq<char>,
> {
    match (field(fields, first), field(fields, second)) {
        (Some(leaf), _) if !leaf.null => Some(leaf.text),
        (_, Some(leaf)) if !leaf.null => Some(leaf.text),
        _ => None,
    }
}

/// Mark and preview of a parsed body, under a lens that was chosen or, without
/// a choice, under the one that fits.
pub open spec fn rendered(wanted: Option<Lens>, d: DocumentView) -> (
    Option<Seq<char>>,
    Option<Seq<char>>,
) {
    let payload = connect_payload(d);
    let (object, fields) = match payload {
        Some(node) => (node.object, node.fields),
        None => (d.object, Seq::new(d.fields.len(), |i: int| d.fields[i].own)),
    };
    let debezium = debezium_fields(object, fields);
    let lens = match wanted {
        Some(lens) => Some(lens),
        None => if debezium {
            Some(Lens::Debezium)
        } else if payload is Some {
            Some(Lens::Connect)
        } else {
            None
        },
    };
    match lens {
        Some(Lens::Debezium) => if debezium {
            let op = string_field(fields, "op"@);
            (
                op,
                if op == Some("d"@) {
                    picked(fields, "before"@, "after"@)
                } else {
                    picked(fields, "after"@, "before"@)
                },
            )
        } else {
            (None, None)
        },
        Some(Lens::Connect) => (
            None,
            match payload {
                Some(node) => Some(node.own.text),
                None => None,
            },
        ),
        None => (None, None),
    }
}

/// A text stands somewhere in the bytes.
pub open spec fn holds(body: Seq<u8>, text: Seq<char>) -> bool {
    exists|i: int| stands_at(body, encode_utf8(text), i)
}

/// Which envelope the keys in the bytes point to.
pub open spec fn sniffed(body: Seq<u8>) -> Option<Lens> {
    if holds(body, "\"payload\""@) && holds(body, "\"schema\""@) {
        Some(Lens::Connect)
    } else if holds(body, "\"op\""@) && (holds(body, "\"before\""@) || holds(
        body,
        "\"after\""@,
    )) {
        Some(Lens::Debezium)
    } else {
        None
    }
}

/// What a lens makes of a body: of one that is too large, is no JSON or, where
/// recognising decides, has no key of an envelope in it, nothing.
pub open spec fn applied(mode: LensMode, body: Seq<u8>) -> (Option<Seq<char>>, Option<Seq<char>>) {
    match mode {
        LensMode::Off => (None, None),
        LensMode::Fixed(lens) => seen(Some(lens), body),
        LensMode::Auto => if sniffed(body) is None {
            (None, None)
        } else {
            seen(None, body)
        },
    }
}

pub open spec fn seen(wanted: Option<Lens>, body: Seq<u8>) -> (Option<Seq<char>>, Option<Seq<char>>) {
    if body.len() > MAX_BYTES {
        (None, None)
    } else {
        match parsed(body) {
            None => (None, None),
            Some(d) => rendered(wanted, d),
        }
    }
}

fn contains(haystack: &[u8], needle: &str) -> (r: bool)
    ensures
        r == holds(haystack@, needle@),
{
    memchr::memmem::find(haystack, needle.as_bytes()).is_some()
}

/// Looks for the keys without which there is no envelope.
pub fn sniff(body: &[u8]) -> (r: Option<Lens>)
    ensures
        r == sniffed(body@),
{
    if contains(body, "\"payload\"") && contains(body, "\"schema\"") {
        return Some(Lens::Connect);
    }
    if contains(body, "\"op\"") && (contains(body, "\"before\"") || contains(body, "\"after\"")) {
        return Some(Lens::Debezium);
    }
    None
}

/// Applies a lens to a body: decoded text, or the bytes of a topic without a
/// schema.
pub fn apply(mode: LensMode, body: &[u8]) -> (r: Lensed)
    ensures
        (text_view(r.tag), text_view(r.preview)) == applied(mode, body@),
{
    let wanted: Option<Lens> = match mode {
        LensMode::Off => return Lensed::default(),
        LensMode::Fixed(lens) => Some(lens),
        LensMode::Auto => {
            if sniff(body).is_none() {
                return Lensed::default();
            }
            None
        },
    };
    if body.len() > MAX_BYTES {
        return Lensed::default();
    }
    match parse(body) {
        None => Lensed::default(),
        Some(document) => render(wanted, &document),
    }
}

fn find<'a>(fields: &'a Vec<Leaf>, name: &str) -> (r: Option<&'a Leaf>)
    ensures
        match (r, field(leaves(fields@), name@)) {
            (Some(leaf), Some(v)) => leaf@ == v,
            (None, None) => true,
            _ => false,
        },
{
    let mut i: usize = 0;
    proof {
        assert(leaves(fields@).skip(0) =~= leaves(fields@));
    }
    while i < fields.len()
        invariant
            i <= fields@.len(),
            field(leaves(fields@), name@) == field(leaves(fields@).skip(i as int), name@),
        decreases fields@.len() - i,
    {
        proof {
            assert(leaves(fields@).skip(i as int)[0] == fields@[i as int]@);
            assert(leaves(fields@).skip(i as int).drop_first() =~= leaves(fields@).skip(i + 1));
        }
        if same_text(fields[i].name.as_str(), name) {
            return Some(&fields[i]);
        }
        i += 1;
    }
    None
}

fn find_node<'a>(fields: &'a Vec<Node>, name: &str) -> (r: Option<&'a Node>)
    ensures
        match (r, node_field(nodes(fields@), name@)) {
            (Some(node), Some(v)) => node@ == v,
            (None, None) => true,
            _ => false,
        },
{
    let mut i: usize = 0;
    proof {
        assert(nodes(fields@).skip(0) =~= nodes(fields@));
    }
    while i < fields.len()
        invariant
            i <= fields@.len(),
            node_field(nodes(fields@), name@) == node_field(nodes(fields@).skip(i as int), name@),
        decreases fields@.len() - i,
    {
        proof {
            assert(nodes(fields@).skip(i as int)[0] == fields@[i as int]@);
            assert(nodes(fields@).skip(i as int).drop_first() =~= nodes(fields@).skip(i + 1));
        }
        if same_text(fields[i].own.name.as_str(), name) {
            return Some(&fields[i]);
        }
        i += 1;
    }
    None
}

pub open spec fn nodes(fields: Seq<Node>) -> Seq<NodeView> {
    Seq::new(fields.len(), |i: int| fields[i]@)
}

/// What is looked at: the payload of a Connect envelope, or the whole body.
enum Inner<'a> {
    Payload(&'a Node),
    Whole(&'a Document),
}

impl<'a> Inner<'a> {
    spec fn object(&self) -> bool {
        match self {
            Inner::Payload(node) => node.object,
            Inner::Whole(d) => d.object,
        }
    }

    spec fn fields(&self) -> Seq<LeafView> {
        match self {
            Inner::Payload(node) => leaves(node.fields@),
            Inner::Whole(d) => Seq::new(d@.fields.len(), |i: int| d@.fields[i].own),
        }
    }

    fn is_object(&self) -> (r: bool)
        ensures
            r == self.object(),
    {
        match self {
            Inner::Payload(node) => node.object,
            Inner::Whole(d) => d.object,
        }
    }

    fn get(&self, name: &str) -> (r: Option<&'a Leaf>)
        ensures
            match (r, field(self.fields(), name@)) {
                (Some(leaf), Some(v)) => leaf@ == v,
                (None, None) => true,
                _ => false,
            },
    {
        match self {
            Inner::Payload(node) => find(&node.fields, name),
            Inner::Whole(d) => {
                proof {
                    assert(nodes(d.fields@) =~= d@.fields);
                    lemma_own_field(d@.fields, name@);
                }
                match find_node(&d.fields, name) {
                    Some(node) => Some(&node.own),
                    None => None,
                }
            },
        }
    }

    /// Whether the field under a name is a given string.
    fn is_string(&self, name: &str, wanted: &str) -> (r: bool)
        ensures
            r == (string_field(self.fields(), name@) == Some(wanted@)),
    {
        match self.get(name) {
            Some(leaf) => match &leaf.string {
                Some(s) => same_text(s.as_str(), wanted),
                None => false,
            },
            None => false,
        }
    }
}

proof fn lemma_own_field(fields: Seq<NodeView>, name: Seq<char>)
    ensures
        match (node_field(fields, name), field(Seq::new(fields.len(), |i: int| fields[i].own), name)) {
            (Some(node), Some(leaf)) => node.own == leaf,
            (None, None) => true,
            _ => false,
        },
    decreases fields.len(),
{
    let owns = Seq::new(fields.len(), |i: int| fields[i].own);
    if fields.len() > 0 {
        let rest = fields.drop_first();
        assert(owns.drop_first() =~= Seq::new(rest.len(), |i: int| rest[i].own));
        lemma_own_field(rest, name);
    }
}

/// Takes a Connect envelope off. Two fields named `schema` and `payload` occur
/// in ordinary messages too; that the schema describes a structure is the hand
/// of the converter.
fn unwrap_connect(d: &Document) -> (r: Option<&Node>)
    ensures
        match (r, connect_payload(d@)) {
            (Some(node), Some(v)) => node@ == v,
            (None, None) => true,
            _ => false,
        },
{
    proof {
        assert(nodes(d.fields@) =~= d@.fields);
    }
    if !d.object {
        return None;
    }
    match find_node(&d.fields, "schema") {
        None => None,
        Some(schema) => {
            if !schema.object {
                return None;
            }
            let named = match find(&schema.fields, "type") {
                Some(leaf) => match &leaf.string {
                    Some(s) => same_text(s.as_str(), "struct"),
                    None => false,
                },
                None => false,
            };
            if named {
                find_node(&d.fields, "payload")
            } else {
                None
            }
        },
    }
}

/// Whether a body is one of Debezium. The field `op` alone is not enough: many
/// ordinary messages have one.
fn is_debezium(inner: &Inner) -> (r: bool)
    ensures
        r == debezium_fields(inner.object(), inner.fields()),
{
    if !inner.is_object() {
        return false;
    }
    let known = inner.is_string("op", "c") || inner.is_string("op", "u") || inner.is_string(
        "op",
        "d",
    ) || inner.is_string("op", "r") || inner.is_string("op", "t") || inner.is_string("op", "m");
    known && (inner.get("before").is_some() || inner.get("after").is_some() || inner.get(
        "source",
    ).is_some())
}

/// The first of two fields that is there and not null.
fn pick(inner: &Inner, first: &str, second: &str) -> (r: Option<String>)
    ensures
        text_view(r) == picked(inner.fields(), first@, second@),
{
    if let Some(leaf) = inner.get(first) {
        if !leaf.null {
            return Some(leaf.text.clone());
        }
    }
    if let Some(leaf) = inner.get(second) {
        if !leaf.null {
            return Some(leaf.text.clone());
        }
    }
    None
}

/// What to show of a parsed body. A lens that was chosen is stronger than
/// recognising, but not stronger than the facts: one that finds nothing to hold
/// on to changes nothing.
///
/// Debezium lives inside a Connect envelope where schemas are switched on, so
/// the outer one is taken off first.
pub fn render(wanted: Option<Lens>, document: &Document) -> (r: Lensed)
    ensures
        (text_view(r.tag), text_view(r.preview)) == rendered(wanted, document@),
{
    let payload = unwrap_connect(document);
    let inner = match payload {
        Some(node) => Inner::Payload(node),
        None => Inner::Whole(document),
    };
    let debezium = is_debezium(&inner);
    let lens: Lens = match wanted {
        Some(lens) => lens,
        None => {
            if debezium {
                Lens::Debezium
            } else if payload.is_some() {
                Lens::Connect
            } else {
                return Lensed::default();
            }
        },
    };
    match lens {
        Lens::Debezium => {
            if !debezium {
                return Lensed::default();
            }
            let tag = match inner.get("op") {
                Some(leaf) => match &leaf.string {
                    Some(s) => Some(s.clone()),
                    None => None,
                },
                None => None,
            };
            // Of a removed row the former state is what matters.
            let preview = if inner.is_string("op", "d") {
                pick(&inner, "before", "after")
            } else {
                pick(&inner, "after", "before")
            };
            Lensed { tag, preview }
        },
        Lens::Connect => Lensed {
            tag: None,
            preview: match payload {
                Some(node) => Some(node.own.text.clone()),
                None => None,
            },
        },
    }
}

/// Switched off, a lens changes nothing, whatever the body.
pub proof fn law_off_changes_nothing(body: Seq<u8>)
    ensures
        applied(LensMode::Off, body) == (None::<Seq<char>>, None::<Seq<char>>),
{
}

/// Where recognising finds an envelope, the lens that fits it shows the same.
pub proof fn law_recognised_as_chosen(body: Seq<u8>)
    requires
        applied(LensMode::Auto, body) != (None::<Seq<char>>, None::<Seq<char>>),
    ensures
        applied(LensMode::Auto, body) == applied(LensMode::Fixed(Lens::Debezium), body) || applied(
            LensMode::Auto,
            body,
        ) == applied(LensMode::Fixed(Lens::Connect), body),
{
}

/// An object has exactly this under a name: one field, or none.
pub open spec fn has_field(fields: Seq<LeafView>, name: Seq<char>, leaf: Option<LeafView>) -> bool {
    match leaf {
        Some(leaf) => leaf.name == name && exists|i: int|
            0 <= i < fields.len() && #[trigger] fields[i] == leaf && forall|j: int|
                0 <= j < fields.len() && j != i ==> (#[trigger] fields[j]).name != name,
        None => forall|j: int| 0 <= j < fields.len() ==> (#[trigger] fields[j]).name != name,
    }
}

/// The same of the fields of a whole body.
pub open spec fn has_node(fields: Seq<NodeView>, name: Seq<char>, node: Option<NodeView>) -> bool {
    match node {
        Some(node) => node.own.name == name && exists|i: int|
            0 <= i < fields.len() && #[trigger] fields[i] == node && forall|j: int|
                0 <= j < fields.len() && j != i ==> (#[trigger] fields[j]).own.name != name,
        None => forall|j: int| 0 <= j < fields.len() ==> (#[trigger] fields[j]).own.name != name,
    }
}

proof fn lemma_has_field(fields: Seq<LeafView>, name: Seq<char>, leaf: Option<LeafView>)
    requires
        has_field(fields, name, leaf),
    ensures
        field(fields, name) == leaf,
    decreases fields.len(),
{
    if fields.len() > 0 && fields[0].name != name {
        let rest = fields.drop_first();
        if let Some(found) = leaf {
            let i = choose|i: int|
                0 <= i < fields.len() && #[trigger] fields[i] == found && forall|j: int|
                    0 <= j < fields.len() && j != i ==> (#[trigger] fields[j]).name != name;
            assert(rest[i - 1] == found);
            assert forall|j: int| 0 <= j < rest.len() && j != i - 1 implies (
            #[trigger] rest[j]).name != name by {
                assert(fields[j + 1].name != name);
            }
        } else {
            assert forall|j: int| 0 <= j < rest.len() implies (#[trigger] rest[j]).name != name by {
                assert(fields[j + 1].name != name);
            }
        }
        lemma_has_field(rest, name, leaf);
    } else if fields.len() > 0 {
        if let Some(found) = leaf {
            let i = choose|i: int|
                0 <= i < fields.len() && #[trigger] fields[i] == found && forall|j: int|
                    0 <= j < fields.len() && j != i ==> (#[trigger] fields[j]).name != name;
            assert(i == 0);
        }
    }
}

proof fn lemma_has_node(fields: Seq<NodeView>, name: Seq<char>, node: Option<NodeView>)
    requires
        has_node(fields, name, node),
    ensures
        node_field(fields, name) == node,
    decreases fields.len(),
{
    if fields.len() > 0 && fields[0].own.name != name {
        let rest = fields.drop_first();
        if let Some(found) = node {
            let i = choose|i: int|
                0 <= i < fields.len() && #[trigger] fields[i] == found && forall|j: int|
                    0 <= j < fields.len() && j != i ==> (#[trigger] fields[j]).own.name != name;
            assert(rest[i - 1] == found);
            assert forall|j: int| 0 <= j < rest.len() && j != i - 1 implies (
            #[trigger] rest[j]).own.name != name by {
                assert(fields[j + 1].own.name != name);
            }
        } else {
            assert forall|j: int| 0 <= j < rest.len() implies (#[trigger] rest[j]).own.name
                != name by {
                assert(fields[j + 1].own.name != name);
            }
        }
        lemma_has_node(rest, name, node);
    } else if fields.len() > 0 {
        if let Some(found) = node {
            let i = choose|i: int|
                0 <= i < fields.len() && #[trigger] fields[i] == found && forall|j: int|
                    0 <= j < fields.len() && j != i ==> (#[trigger] fields[j]).own.name != name;
            assert(i == 0);
        }
    }
}

/// A body is an envelope of Connect around a payload: beside the payload stands a
/// schema, an object whose type is the text `struct`.
pub open spec fn wraps(d: DocumentView, payload: NodeView) -> bool {
    &&& d.object
    &&& has_node(d.fields, "payload"@, Some(payload))
    &&& exists|schema: NodeView, kind: LeafView|
        schema.object && kind.string == Some("struct"@) && #[trigger] has_node(
            d.fields,
            "schema"@,
            Some(schema),
        ) && #[trigger] has_field(schema.fields, "type"@, Some(kind))
}

/// A body is no envelope of Connect: it has no schema beside a payload, or one
/// whose type is another.
pub open spec fn bare(d: DocumentView) -> bool {
    ||| has_node(d.fields, "schema"@, None)
    ||| has_node(d.fields, "payload"@, None)
    ||| exists|schema: NodeView, kind: Option<LeafView>|
        #[trigger] has_node(d.fields, "schema"@, Some(schema)) && #[trigger] has_field(
            schema.fields,
            "type"@,
            kind,
        ) && (kind is None || kind->0.string != Some("struct"@))
}

/// The fields that tell of a change: those of the payload inside of an envelope,
/// or those of the body itself.
pub open spec fn tells_by(d: DocumentView, fields: Seq<LeafView>) -> bool {
    ||| d.object && bare(d) && fields == Seq::new(d.fields.len(), |i: int| d.fields[i].own)
    ||| exists|payload: NodeView| #[trigger]
        wraps(d, payload) && payload.object && fields == payload.fields
}

proof fn lemma_wraps(d: DocumentView, payload: NodeView)
    requires
        wraps(d, payload),
    ensures
        connect_payload(d) == Some(payload),
{
    let (schema, kind) = choose|schema: NodeView, kind: LeafView|
        schema.object && kind.string == Some("struct"@) && #[trigger] has_node(
            d.fields,
            "schema"@,
            Some(schema),
        ) && #[trigger] has_field(schema.fields, "type"@, Some(kind));
    lemma_has_node(d.fields, "schema"@, Some(schema));
    lemma_has_node(d.fields, "payload"@, Some(payload));
    lemma_has_field(schema.fields, "type"@, Some(kind));
}

proof fn lemma_bare(d: DocumentView)
    requires
        bare(d),
    ensures
        connect_payload(d) is None,
{
    if has_node(d.fields, "schema"@, None) {
        lemma_has_node(d.fields, "schema"@, None);
    } else if has_node(d.fields, "payload"@, None) {
        lemma_has_node(d.fields, "payload"@, None);
    } else {
        let (schema, kind) = choose|schema: NodeView, kind: Option<LeafView>|
            #[trigger] has_node(d.fields, "schema"@, Some(schema)) && #[trigger] has_field(
                schema.fields,
                "type"@,
                kind,
            ) && (kind is None || kind->0.string != Some("struct"@));
        lemma_has_node(d.fields, "schema"@, Some(schema));
        lemma_has_field(schema.fields, "type"@, kind);
    }
}

/// One of the six operations that Debezium writes.
pub open spec fn is_operation(op: Seq<char>) -> bool {
    op == "c"@ || op == "u"@ || op == "d"@ || op == "r"@ || op == "t"@ || op == "m"@
}

/// The text of a field, where it is there and not null.
pub open spec fn says(leaf: Option<LeafView>) -> Option<Seq<char>> {
    match leaf {
        Some(l) => if l.null {
            None
        } else {
            Some(l.text)
        },
        None => None,
    }
}

/// A change is shown by the row that it left: the one after it, whatever the one
/// before it was. Only of a removal the row before it is shown. The other row
/// stands in where the first is missing or null. The mark is the operation as it
/// was written. It makes no difference whether the lens was chosen or recognised,
/// nor whether an envelope of Connect is around the change.
pub proof fn law_change_is_shown_by_the_row_it_left(
    wanted: Option<Lens>,
    d: DocumentView,
    fields: Seq<LeafView>,
    op: LeafView,
    before: Option<LeafView>,
    after: Option<LeafView>,
    source: Option<LeafView>,
)
    requires
        wanted is None || wanted == Some(Lens::Debezium),
        tells_by(d, fields),
        has_field(fields, "op"@, Some(op)),
        has_field(fields, "before"@, before),
        has_field(fields, "after"@, after),
        has_field(fields, "source"@, source),
        op.string is Some && is_operation(op.string->0),
        before is Some || after is Some || source is Some,
    ensures
        rendered(wanted, d).0 == op.string,
        op.string != Some("d"@) && says(after) is Some ==> rendered(wanted, d).1 == says(after),
        op.string != Some("d"@) && says(after) is None ==> rendered(wanted, d).1 == says(before),
        op.string == Some("d"@) && says(before) is Some ==> rendered(wanted, d).1 == says(before),
        op.string == Some("d"@) && says(before) is None ==> rendered(wanted, d).1 == says(after),
{
    lemma_has_field(fields, "op"@, Some(op));
    lemma_has_field(fields, "before"@, before);
    lemma_has_field(fields, "after"@, after);
    lemma_has_field(fields, "source"@, source);
    if d.object && bare(d) && fields == Seq::new(d.fields.len(), |i: int| d.fields[i].own) {
        lemma_bare(d);
    } else {
        let payload = choose|payload: NodeView| #[trigger]
            wraps(d, payload) && payload.object && fields == payload.fields;
        lemma_wraps(d, payload);
    }
}

/// What an envelope of Connect carries is shown, and not the envelope, where it
/// is no change of Debezium or where this lens was chosen. It has no mark.
pub proof fn law_envelope_is_taken_off(
    wanted: Option<Lens>,
    d: DocumentView,
    payload: NodeView,
    op: Option<LeafView>,
)
    requires
        wraps(d, payload),
        has_field(payload.fields, "op"@, op),
        wanted == Some(Lens::Connect) || (wanted is None && (!payload.object || op is None
            || op->0.string is None || !is_operation(op->0.string->0))),
    ensures
        rendered(wanted, d) == (None::<Seq<char>>, Some(payload.own.text)),
{
    lemma_wraps(d, payload);
    lemma_has_field(payload.fields, "op"@, op);
}

/// A body that is neither is left as it is, whichever lens was chosen: without an
/// operation of Debezium there is no change to be shown, and an operation alone is
/// none either.
pub proof fn law_ordinary_body_is_left_alone(
    wanted: Option<Lens>,
    d: DocumentView,
    op: Option<LeafView>,
)
    requires
        bare(d),
        ({
            let fields = Seq::new(d.fields.len(), |i: int| d.fields[i].own);
            &&& has_field(fields, "op"@, op)
            &&& {
                ||| !d.object
                ||| op is None || op->0.string is None || !is_operation(op->0.string->0)
                ||| has_field(fields, "before"@, None) && has_field(fields, "after"@, None)
                    && has_field(fields, "source"@, None)
            }
        }),
    ensures
        rendered(wanted, d) == (None::<Seq<char>>, None::<Seq<char>>),
{
    let fields = Seq::new(d.fields.len(), |i: int| d.fields[i].own);
    lemma_bare(d);
    lemma_has_field(fields, "op"@, op);
    if has_field(fields, "before"@, None) && has_field(fields, "after"@, None) && has_field(
        fields,
        "source"@,
        None,
    ) {
        lemma_has_field(fields, "before"@, None);
        lemma_has_field(fields, "after"@, None);
        lemma_has_field(fields, "source"@, None);
    }
}

/// A key in quotes stands in the bytes.
pub open spec fn has_key(body: Seq<u8>, quoted_key: Seq<char>) -> bool {
    exists|i: int|
        0 <= i && i + encode_utf8(quoted_key).len() <= body.len() && #[trigger] body.subrange(
            i,
            i + encode_utf8(quoted_key).len(),
        ) == encode_utf8(quoted_key)
}

proof fn lemma_has_key(body: Seq<u8>, quoted_key: Seq<char>)
    ensures
        has_key(body, quoted_key) <==> holds(body, quoted_key),
{
    if has_key(body, quoted_key) {
        let i = choose|i: int|
            0 <= i && i + encode_utf8(quoted_key).len() <= body.len() && #[trigger] body.subrange(
                i,
                i + encode_utf8(quoted_key).len(),
            ) == encode_utf8(quoted_key);
        assert(stands_at(body, encode_utf8(quoted_key), i));
    }
    if holds(body, quoted_key) {
        let i = choose|i: int| stands_at(body, encode_utf8(quoted_key), i);
        assert(body.subrange(i, i + encode_utf8(quoted_key).len()) == encode_utf8(quoted_key));
    }
}

/// Recognising looks at every body of up to 256 kilobytes that has the keys of an
/// envelope in its bytes, and at no other; a lens that was chosen looks at all of
/// that size.
pub proof fn law_what_is_looked_at(body: Seq<u8>, d: DocumentView, lens: Lens)
    requires
        parsed(body) == Some(d),
    ensures
        body.len() > 262_144 ==> applied(LensMode::Auto, body) == (None::<Seq<char>>, None::<
            Seq<char>,
        >) && applied(LensMode::Fixed(lens), body) == (None::<Seq<char>>, None::<Seq<char>>),
        body.len() <= 262_144 ==> applied(LensMode::Fixed(lens), body) == rendered(Some(lens), d),
        body.len() <= 262_144 && has_key(body, "\"payload\""@) && has_key(body, "\"schema\""@)
            ==> applied(LensMode::Auto, body) == rendered(None, d),
        body.len() <= 262_144 && has_key(body, "\"op\""@) && (has_key(body, "\"before\""@)
            || has_key(body, "\"after\""@)) ==> applied(LensMode::Auto, body) == rendered(None, d),
        !has_key(body, "\"op\""@) && !(has_key(body, "\"payload\""@) && has_key(
            body,
            "\"schema\""@,
        )) ==> applied(LensMode::Auto, body) == (None::<Seq<char>>, None::<Seq<char>>),
{
    lemma_has_key(body, "\"payload\""@);
    lemma_has_key(body, "\"schema\""@);
    lemma_has_key(body, "\"op\""@);
    lemma_has_key(body, "\"before\""@);
    lemma_has_key(body, "\"after\""@);
}

} // verus!

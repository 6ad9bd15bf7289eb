//! Links to messages.

use vstd::prelude::*;

use crate::favorites::types::BodyFormat;

verus! {

/// A link that the system brought. It waits here until the window asks for it: a
/// link that started the program comes before there is a window.
#[derive(Debug)]
pub struct PendingLink {
    pub url: Option<String>,
}

impl Default for PendingLink {
    fn default() -> (r: Self)
        ensures
            r.url is None,
    {
        PendingLink { url: None }
    }
}

impl PendingLink {
    pub fn put(&mut self, url: String)
        ensures
            final(self).url == Some(url),
    {
        self.url = Some(url);
    }

    /// Takes the link. It is given once: a link followed twice would be followed
    /// by the event and by the question.
    pub fn take(&mut self) -> (r: Option<String>)
        ensures
            r == old(self).url,
            final(self).url is None,
    {
        self.url.take()
    }
}

/// Which message to share.
#[derive(Debug)]
pub struct ShareRequest {
    /// The key of the schemas, for the hint alone.
    pub cluster: Option<String>,
    pub cluster_name: Option<String>,
    pub topic: String,
    pub partition: i32,
    pub offset: i64,
    pub timestamp: i64,
}

/// What a link says.
#[derive(Debug)]
pub struct MessageLink {
    /// What the cluster calls itself: a local name means nothing elsewhere.
    pub cluster_id: String,
    pub cluster_name: Option<String>,
    pub topic: String,
    pub partition: i32,
    pub offset: i64,
    pub timestamp: Option<i64>,
    pub format: Option<BodyFormat>,
    pub schema_type: Option<String>,
}

/// How a topic is read: what a link may hint at.
#[derive(Debug)]
pub struct TopicSchema {
    pub format: BodyFormat,
    /// The message of a `.proto`.
    pub message: Option<String>,
    /// The subject of the registry and the record of an `.avsc`.
    pub avro: Option<(Option<String>, Option<String>)>,
    /// The subject of the registry.
    pub json: Option<Option<String>>,
}

/// The name of the type inside a schema, from where the format has it. Without a
/// schema there is none.
pub open spec fn inner_type(schema: TopicSchema) -> Option<String> {
    match schema.format {
        BodyFormat::Proto => schema.message,
        BodyFormat::Avro => match schema.avro {
            Some((Some(subject), _)) => Some(subject),
            Some((None, record)) => record,
            None => None,
        },
        BodyFormat::JsonSchema => match schema.json {
            Some(subject) => subject,
            None => None,
        },
        _ => None,
    }
}

/// The format of a topic and the name of the type inside its schema.
pub fn schema_hint(schema: TopicSchema) -> (r: (BodyFormat, Option<String>))
    ensures
        r.0 == schema.format,
        r.1 == inner_type(schema),
{
    let format = schema.format;
    let name = match format {
        BodyFormat::Proto => schema.message,
        BodyFormat::Avro => match schema.avro {
            Some((Some(subject), _)) => Some(subject),
            Some((None, record)) => record,
            None => None,
        },
        BodyFormat::JsonSchema => match schema.json {
            Some(subject) => subject,
            None => None,
        },
        BodyFormat::Json | BodyFormat::Text | BodyFormat::Hex => None,
    };
    (format, name)
}

/// Makes a link to a message of the cluster at hand. A cluster that does not
/// call itself anything cannot be pointed at. An empty name is no name; a time
/// that neither the sender nor the broker set is left out.
pub fn message_link(
    request: ShareRequest,
    cluster_id: Option<String>,
    schema: Option<TopicSchema>,
) -> (r: Result<MessageLink, String>)
    ensures
        match (cluster_id, r) {
            (None, Err(e)) => e@
                == "this cluster does not report a cluster id, so there is nothing a link could point at"@,
            (Some(id), Ok(link)) => {
                &&& link.cluster_id == id
                &&& link.cluster_name == (match request.cluster_name {
                    Some(n) if n@.len() > 0 => Some(n),
                    _ => None,
                })
                &&& link.topic == request.topic
                &&& link.partition == request.partition
                &&& link.offset == request.offset
                &&& link.timestamp == (if request.timestamp > 0 {
                    Some(request.timestamp)
                } else {
                    None
                })
                &&& match schema {
                    Some(s) => link.format == Some(s.format) && link.schema_type == inner_type(s),
                    None => link.format is None && link.schema_type is None,
                }
            },
            _ => false,
        },
{
    let cluster_id = match cluster_id {
        Some(id) => id,
        None => {
            return Err(
                "this cluster does not report a cluster id, so there is nothing a link could point at".to_owned(),
            );
        },
    };
    let cluster_name = match request.cluster_name {
        Some(n) => if n.as_str().is_empty() {
            None
        } else {
            Some(n)
        },
        None => None,
    };
    let (format, name) = match schema {
        Some(s) => {
            let (format, name) = schema_hint(s);
            (Some(format), name)
        },
        None => (None, None),
    };
    Ok(
        MessageLink {
            cluster_id,
            cluster_name,
            topic: request.topic,
            partition: request.partition,
            offset: request.offset,
            timestamp: if request.timestamp > 0 {
                Some(request.timestamp)
            } else {
                None
            },
            format,
            schema_type: name,
        },
    )
}

/// The name of the type comes from where the format has it, and from nowhere
/// else: the message of a `.proto`; of Avro the subject, and the record where
/// there is no subject; the subject of a JSON schema.
pub proof fn law_name_of_the_type(schema: TopicSchema)
    ensures
        schema.format == BodyFormat::Proto ==> inner_type(schema) == schema.message,
        schema.format == BodyFormat::JsonSchema && schema.json is Some ==> inner_type(schema)
            == schema.json->0,
        schema.format == BodyFormat::Avro && schema.avro is Some && (schema.avro->0).0 is Some
            ==> inner_type(schema) == (schema.avro->0).0,
        schema.format == BodyFormat::Avro && schema.avro is Some && (schema.avro->0).0 is None
            ==> inner_type(schema) == (schema.avro->0).1,
        schema.format == BodyFormat::Avro && schema.avro is None ==> inner_type(schema) is None,
        schema.format == BodyFormat::JsonSchema && schema.json is None ==> inner_type(schema)
            is None,
        schema.format == BodyFormat::Json || schema.format == BodyFormat::Text || schema.format
            == BodyFormat::Hex ==> inner_type(schema) is None,
{
}

} // verus!

//! What the parts of the viewer tell one another about clusters, topics and
//! messages.

use vstd::prelude::*;

verus! {

/// How to connect to a cluster.
#[derive(Debug, Clone)]
pub struct ClusterConnectPayload {
    /// The saved cluster, if it is one: secrets that are not given are taken
    /// from the keychain under its name.
    pub id: Option<String>,
    pub user_id: Option<String>,
    pub brokers: String,
    pub security_protocol: String,
    pub sasl_mechanism: Option<String>,
    pub username: Option<String>,
    pub password: Option<String>,
    pub ssl_ca_bundle_path: Option<String>,
    pub ssl_certificate_path: Option<String>,
    pub ssl_key_path: Option<String>,
    pub ssl_key_password: Option<String>,
    pub ssl_skip_hostname_check: bool,
    pub ssl_skip_certificate_verification: bool,
}

#[derive(Debug, Clone)]
pub struct TopicInfo {
    pub name: String,
    pub partitions: usize,
}

#[derive(Debug, Clone)]
pub struct TopicConfigEntry {
    pub name: String,
    pub value: Option<String>,
    pub is_default: bool,
    pub is_read_only: bool,
    pub is_sensitive: bool,
}

#[derive(Debug, Clone, Copy)]
pub struct PartitionDetails {
    pub id: i32,
    pub leader: i32,
    pub replicas: usize,
    pub in_sync: usize,
    pub low: Option<i64>,
    pub high: Option<i64>,
}

#[derive(Debug, Clone)]
pub struct TopicDetails {
    pub name: String,
    pub partitions: Vec<PartitionDetails>,
    /// The greatest among the partitions; nothing when there are none.
    pub replication_factor: Option<usize>,
    pub under_replicated: usize,
    /// Nothing when the bounds of no partition are known.
    pub messages: Option<i64>,
    /// The bounds of some partition are not known: `messages` counts the rest.
    pub offsets_partial: bool,
    pub sample_wire_bytes: Option<u64>,
    pub sample_messages: Option<u64>,
    pub sample_bytes: Option<u64>,
    pub config: Vec<TopicConfigEntry>,
    pub config_error: Option<String>,
}

#[derive(Debug, Clone, Copy, PartialEq, Eq, Structural)]
pub enum StartFrom {
    Oldest,
    Newest,
}

#[derive(Debug, Clone, Copy, PartialEq, Eq, Structural)]
pub enum SortColumn {
    Partition,
    Offset,
    Key,
    Timestamp,
}

#[derive(Debug, Clone, Copy, PartialEq, Eq, Structural)]
pub enum SortDirection {
    Asc,
    Desc,
}

#[derive(Debug, Clone, Copy, PartialEq, Eq, Structural)]
pub struct SortSpec {
    pub column: SortColumn,
    pub direction: SortDirection,
}

/// What the user looks for.
#[derive(Debug, Clone)]
pub struct MessageFilter {
    pub key: String,
    pub value: String,
    pub case_sensitive: bool,
    /// Look in the decoded body too, not only in the bytes.
    pub search_decoded: bool,
}

impl Default for MessageFilter {
    fn default() -> (r: Self)
        ensures
            r.key@.len() == 0,
            r.value@.len() == 0,
            !r.case_sensitive,
            !r.search_decoded,
    {
        MessageFilter {
            key: String::new(),
            value: String::new(),
            case_sensitive: false,
            search_decoded: false,
        }
    }
}

impl MessageFilter {
    /// Nothing is looked for. Where to look is not part of the question.
    pub fn is_empty(&self) -> (r: bool)
        ensures
            r == (self.key@.len() == 0 && self.value@.len() == 0),
    {
        self.key.as_str().is_empty() && self.value.as_str().is_empty()
    }
}

/// The bounds of a read, both inclusive, by offset or by time.
#[derive(Debug, Clone, Copy)]
pub struct ReadRange {
    pub from_offset: Option<i64>,
    pub to_offset: Option<i64>,
    pub from_timestamp: Option<i64>,
    pub to_timestamp: Option<i64>,
}

impl Default for ReadRange {
    fn default() -> (r: Self)
        ensures
            r.from_offset is None,
            r.to_offset is None,
            r.from_timestamp is None,
            r.to_timestamp is None,
    {
        ReadRange { from_offset: None, to_offset: None, from_timestamp: None, to_timestamp: None }
    }
}

impl ReadRange {
    pub open spec fn starts(&self) -> bool {
        self.from_offset is Some || self.from_timestamp is Some
    }

    pub open spec fn ends(&self) -> bool {
        self.to_offset is Some || self.to_timestamp is Some
    }

    pub open spec fn timed(&self) -> bool {
        self.from_timestamp is Some || self.to_timestamp is Some
    }

    /// Whether a read goes back from the end.
    pub open spec fn backwards(&self, start_from: StartFrom) -> bool {
        if self.starts() {
            false
        } else if self.ends() {
            true
        } else {
            start_from == StartFrom::Newest
        }
    }

    /// No bound is given.
    pub fn is_empty(&self) -> (r: bool)
        ensures
            r == (!self.starts() && !self.ends()),
    {
        !self.has_from() && !self.has_to()
    }

    pub fn has_from(&self) -> (r: bool)
        ensures
            r == self.starts(),
    {
        self.from_offset.is_some() || self.from_timestamp.is_some()
    }

    pub fn has_to(&self) -> (r: bool)
        ensures
            r == self.ends(),
    {
        self.to_offset.is_some() || self.to_timestamp.is_some()
    }

    /// A bound is given by time. Time wins over offsets.
    pub fn by_timestamp(&self) -> (r: bool)
        ensures
            r == self.timed(),
    {
        self.from_timestamp.is_some() || self.to_timestamp.is_some()
    }

    /// Which way to read. A range is read from the bound that it names: from
    /// its start on where there is one, back from its end where there is only
    /// that. Without bounds the user's choice stands.
    pub fn newest_first(&self, start_from: StartFrom) -> (r: bool)
        ensures
            r == self.backwards(start_from),
    {
        if self.has_from() {
            false
        } else if self.has_to() {
            true
        } else {
            start_from == StartFrom::Newest
        }
    }
}

/// What to open and how.
#[derive(Debug, Clone)]
pub struct OpenTopicParams {
    pub topic: String,
    pub start_from: StartFrom,
    pub limit: usize,
    pub partitions: Option<Vec<i32>>,
    pub filter: MessageFilter,
    pub range: ReadRange,
    pub sort: Option<SortSpec>,
}

#[derive(Debug, Clone, Copy)]
pub struct LoadMoreParams {
    pub additional: usize,
}

/// How much of the topic was looked through, and how much there is.
#[derive(Debug, Clone, Copy)]
pub struct ReadScope {
    pub scanned: u64,
    /// Nothing before the bounds of the partitions are known.
    pub approx_total: Option<i64>,
}

#[derive(Debug, Clone, Copy)]
pub struct OpenTopicResult {
    pub total: usize,
    pub loaded: usize,
    pub buffer_bytes: usize,
    pub memory: MemoryUsage,
    pub truncated: bool,
    pub quota: QuotaInfo,
    pub scope: ReadScope,
}

#[derive(Debug, Clone, Copy)]
pub struct MemoryUsage {
    pub memory_bytes: usize,
    pub memory_limit: usize,
}

impl Default for MemoryUsage {
    fn default() -> (r: Self)
        ensures
            r.memory_bytes == 0,
            r.memory_limit == 0,
    {
        MemoryUsage { memory_bytes: 0, memory_limit: 0 }
    }
}

/// The measured speed of the cluster.
#[derive(Debug, Clone, Copy)]
pub struct QuotaInfo {
    pub read_bytes_per_sec: Option<u64>,
    pub peak_throttle_ms: u64,
    pub active_brokers: u32,
    pub known_brokers: u32,
}

impl Default for QuotaInfo {
    fn default() -> (r: Self)
        ensures
            r.read_bytes_per_sec is None,
            r.peak_throttle_ms == 0,
            r.active_brokers == 0,
            r.known_brokers == 0,
    {
        QuotaInfo {
            read_bytes_per_sec: None,
            peak_throttle_ms: 0,
            active_brokers: 0,
            known_brokers: 0,
        }
    }
}

#[derive(Debug, Clone)]
pub struct OpenTopicProgress {
    pub topic: Option<String>,
    pub loaded: usize,
    pub total: usize,
    pub buffer_bytes: usize,
    pub memory: MemoryUsage,
    pub truncated: bool,
    pub done: bool,
    pub quota: QuotaInfo,
    pub scope: ReadScope,
    pub searching: bool,
}

/// A row of the table.
#[derive(Debug, Clone)]
pub struct RowPreview {
    pub index: usize,
    pub partition: i32,
    pub offset: i64,
    pub timestamp: i64,
    pub key: String,
    pub preview: String,
    pub value_size: usize,
    pub binary: bool,
    pub decode_error: Option<String>,
    pub lens_tag: Option<String>,
}

#[derive(Debug, Clone)]
pub struct MessageHeader {
    pub key: String,
    pub value: String,
}

/// A message that was opened.
#[derive(Debug, Clone)]
pub struct FullMessage {
    pub partition: i32,
    pub offset: i64,
    pub timestamp: i64,
    pub key: String,
    pub value: String,
    pub value_size: usize,
    pub binary: bool,
    pub decode_error: Option<String>,
    pub enum_values: Vec<String>,
    pub headers: Vec<MessageHeader>,
}

/// A message as it came: the body in raw bytes, without any schema.
#[derive(Debug, Clone)]
pub struct RawBody {
    pub partition: i32,
    pub offset: i64,
    pub timestamp: i64,
    pub key: String,
    pub value: Vec<u8>,
    pub headers: Vec<MessageHeader>,
}

#[derive(Debug, Clone, Copy, PartialEq, Eq, Structural)]
pub enum PayloadFormat {
    Text,
    Json,
    Proto,
    Avro,
    JsonSchema,
    Hex,
}

/// A message to send, as it was typed.
#[derive(Debug, Clone)]
pub struct ProduceRequest {
    pub topic: String,
    pub partition: Option<i32>,
    pub key: String,
    pub headers: Vec<MessageHeader>,
    pub format: PayloadFormat,
    pub payload: String,
    pub message: Option<String>,
    pub subject: Option<String>,
}

/// A message to send, in bytes.
#[derive(Debug, Clone)]
pub struct ProduceRecord {
    pub topic: String,
    pub partition: Option<i32>,
    pub key: Option<Vec<u8>>,
    pub headers: Vec<MessageHeader>,
    pub payload: Vec<u8>,
}

/// Where a sent message landed.
#[derive(Debug, Clone, Copy, PartialEq, Eq, Structural)]
pub struct ProduceResult {
    pub partition: i32,
    pub offset: i64,
}

#[derive(Debug, Clone, Copy, PartialEq, Eq, Structural)]
pub enum IssueSeverity {
    Warning,
    Error,
}

/// What is wrong with a message before it is sent.
#[derive(Debug, Clone)]
pub struct PayloadIssue {
    pub severity: IssueSeverity,
    pub message: String,
}

/// A range is read from the end that it names: on from its start, where it has
/// one, by offset or by time, and back from its end, where it has only that.
/// Without a range the user's choice stands.
pub proof fn law_direction_of_a_read(range: ReadRange, start_from: StartFrom)
    ensures
        range.from_offset is Some || range.from_timestamp is Some ==> !range.backwards(start_from),
        range.from_offset is None && range.from_timestamp is None && (range.to_offset is Some
            || range.to_timestamp is Some) ==> range.backwards(start_from),
        range.from_offset is None && range.from_timestamp is None && range.to_offset is None
            && range.to_timestamp is None ==> (range.backwards(start_from) <==> start_from
            == StartFrom::Newest),
{
}

/// A range has a start, an end and times where such a bound is given, by offset
/// or by time.
pub proof fn law_bounds_of_a_range(range: ReadRange)
    ensures
        range.from_offset is Some || range.from_timestamp is Some <==> range.starts(),
        range.to_offset is Some || range.to_timestamp is Some <==> range.ends(),
        range.from_timestamp is Some || range.to_timestamp is Some <==> range.timed(),
{
}

} // verus!

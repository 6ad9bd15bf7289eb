//! What is kept of a saved message.

use vstd::prelude::*;

use crate::kafka::types::{FullMessage, MessageHeader};
use crate::strings::same_text;

verus! {

/// How the body of a message is read.
#[derive(Debug, Clone, Copy, PartialEq, Eq, Structural)]
pub enum BodyFormat {
    Json,
    Text,
    Hex,
    Proto,
    Avro,
    JsonSchema,
}

impl Default for BodyFormat {
    fn default() -> (r: Self)
        ensures
            r == BodyFormat::Json,
    {
        BodyFormat::Json
    }
}

/// A record of the index: all of a saved message but its body, which lies in a
/// file of its own in raw bytes.
#[derive(Debug)]
pub struct FavoriteRecord {
    pub id: String,
    /// The key of the cluster: the id of a saved connection, or the name of one
    /// that was typed in.
    pub cluster: String,
    /// The name of the cluster when the message was saved.
    pub cluster_name: String,
    pub topic: String,
    pub partition: i32,
    pub offset: i64,
    /// The time of the message, not of the saving.
    pub timestamp: i64,
    pub key: String,
    pub preview: String,
    /// There was a schema when the preview was made. Not that the body could be
    /// decoded: one that cannot would be tried again and again.
    pub with_schema: bool,
    pub value_size: usize,
    pub binary: bool,
    pub headers: Vec<MessageHeader>,
    pub saved_at: String,
}

impl FavoriteRecord {
    pub open spec fn is_of(
        self,
        cluster: Seq<char>,
        topic: Seq<char>,
        partition: i32,
        offset: i64,
    ) -> bool {
        &&& self.cluster@ == cluster
        &&& self.topic@ == topic
        &&& self.partition == partition
        &&& self.offset == offset
    }

    /// Whether this is the record of a message. By the same a message that is
    /// saved again is known.
    pub fn same_message(&self, cluster: &str, topic: &str, partition: i32, offset: i64) -> (r: bool)
        ensures
            r == self.is_of(cluster@, topic@, partition, offset),
    {
        same_text(self.cluster.as_str(), cluster) && same_text(self.topic.as_str(), topic)
            && self.partition == partition && self.offset == offset
    }
}

/// A record as the list shows it.
#[derive(Debug)]
pub struct FavoriteView {
    pub record: FavoriteRecord,
    /// How much its body takes on the disk right now.
    pub bytes: u64,
    /// The file of the body is gone. The record is shown all the same: there
    /// would be nothing to delete otherwise.
    pub missing: bool,
}

/// All saved messages, and what they cost.
#[derive(Debug)]
pub struct FavoritesView {
    /// From old to new.
    pub items: Vec<FavoriteView>,
    /// The files of the bodies together with the index.
    pub total_bytes: u64,
}

/// Which message to save.
#[derive(Debug)]
pub struct SaveFavoriteRequest {
    pub cluster: String,
    pub cluster_name: String,
    pub topic: String,
    /// The row of the table.
    pub index: usize,
    /// What is expected in that row. It may hold another message by now.
    pub partition: i32,
    pub offset: i64,
}

/// What came of saving.
#[derive(Debug)]
pub struct SaveFavoriteResult {
    pub favorites: FavoritesView,
    pub id: String,
    /// The message was saved before, and is still one record.
    pub updated: bool,
}

/// A saved message that was opened.
#[derive(Debug)]
pub struct SavedMessage {
    pub message: FullMessage,
    pub format: BodyFormat,
}

} // verus!

//! The broker: its wire protocol, topics, consumer groups and request handling.

pub mod answer_laws;
pub mod connection;
pub mod consumer_group;
pub mod disk_laws;
pub mod field_laws;
pub mod format_laws;
pub mod frame_text;
pub mod history_laws;
pub mod protocol;
pub mod protocol_laws;
pub mod server;
pub mod server_laws;
pub mod shown_laws;
pub mod topic;

use vstd::prelude::*;

use crate::log::{LogError, LogErrorView};
use crate::text;
use crate::text::push_decimal;

verus! {

/// What can go wrong in the broker.
#[derive(Debug)]
pub enum BrokerError {
    /// A log could not be opened.
    Log(LogError),
    /// There is no topic of this name.
    TopicNotFound(String),
    /// The topic has no such partition: the partition asked for, the topic and
    /// the number of its partitions.
    PartitionOutOfRange(u32, String, usize),
    /// There is a topic of this name, with so many partitions.
    TopicAlreadyExists(String, u32),
}

/// A `BrokerError` with its texts as character sequences.
pub enum BrokerErrorView {
    Log(LogErrorView),
    TopicNotFound(Seq<char>),
    PartitionOutOfRange(u32, Seq<char>, usize),
    TopicAlreadyExists(Seq<char>, u32),
}

impl View for BrokerError {
    type V = BrokerErrorView;

    open spec fn view(&self) -> BrokerErrorView {
        match self {
            BrokerError::Log(e) => BrokerErrorView::Log(e@),
            BrokerError::TopicNotFound(name) => BrokerErrorView::TopicNotFound(name@),
            BrokerError::PartitionOutOfRange(partition, name, count) =>
            BrokerErrorView::PartitionOutOfRange(*partition, name@, *count),
            BrokerError::TopicAlreadyExists(name, count) => BrokerErrorView::TopicAlreadyExists(
                name@,
                *count,
            ),
        }
    }
}

impl BrokerErrorView {
    /// The error in words.
    pub open spec fn message(self) -> Seq<char> {
        match self {
            BrokerErrorView::Log(e) => "log error: "@ + e.message(),
            BrokerErrorView::TopicNotFound(name) => "topic '"@ + name + "' not found"@,
            BrokerErrorView::PartitionOutOfRange(partition, name, count) => "partition "@
                + text::decimal(partition as nat) + " out of range for topic '"@ + name + "' ("@
                + text::decimal(count as nat) + " partitions)"@,
            BrokerErrorView::TopicAlreadyExists(name, count) => "topic '"@ + name
                + "' already exists with "@ + text::decimal(count as nat) + " partitions"@,
        }
    }
}

impl BrokerError {
    /// The error in words.
    pub fn to_string(&self) -> (out: String)
        ensures
            out@ == self@.message(),
    {
        match self {
            BrokerError::Log(e) => {
                let mut out = String::from_str("log error: ");
                out.append(e.to_string().as_str());
                out
            },
            BrokerError::TopicNotFound(name) => {
                let mut out = String::from_str("topic '");
                out.append(name.as_str());
                out.append("' not found");
                out
            },
            BrokerError::PartitionOutOfRange(partition, name, count) => {
                let mut out = String::from_str("partition ");
                push_decimal(&mut out, *partition as u64);
                out.append(" out of range for topic '");
                out.append(name.as_str());
                out.append("' (");
                push_decimal(&mut out, *count as u64);
                out.append(" partitions)");
                out
            },
            BrokerError::TopicAlreadyExists(name, count) => {
                let mut out = String::from_str("topic '");
                out.append(name.as_str());
                out.append("' already exists with ");
                push_decimal(&mut out, *count as u64);
                out.append(" partitions");
                out
            },
        }
    }
}

} // verus!

//! Topics: creating one, or proving that an existing one has the right shape.
use vstd::prelude::*;
use crate::text::{begins, cat2, cat4, cat7, dec_int, decimal_int};

verus! {

/// What the broker answered to the creation of a topic.
#[derive(Debug)]
pub enum TopicReply {
    Created,
    /// It exists already, with this many partitions.
    Exists(i32),
    /// It could not be created, for this reason.
    Failed(String),
}

pub open spec fn shape_refusal(topic: Seq<char>, actual: i32, wanted: i32) -> Seq<char> {
    "topic "@ + topic + " already exists with "@ + decimal_int(actual as int)
        + " partitions, but this run asked for "@ + decimal_int(wanted as int)
        + ". Reusing it would measure "@ + (decimal_int(actual as int) + " while recording "@
        + decimal_int(wanted as int) + "; delete the topic or pick another name."@)
}

/// Accepts a topic that was created, or that exists with the partitions asked for.
/// Another shape is refused: a run would measure one and record the other.
pub fn ensure_topic(topic: &str, partitions: i32, reply: TopicReply) -> (r: Result<(), String>)
    ensures
        match reply {
            TopicReply::Created => r is Ok,
            TopicReply::Exists(actual) => match r {
                Ok(_) => actual == partitions,
                Err(e) => actual != partitions && e@ == shape_refusal(topic@, actual, partitions),
            },
            TopicReply::Failed(why) => r is Err && r->Err_0@ == "failed to create topic "@ + topic@
                + ": "@ + why@,
        },
{
    match reply {
        TopicReply::Created => Ok(()),
        TopicReply::Exists(actual) => {
            if actual == partitions {
                return Ok(());
            }
            let a = dec_int(actual as i128);
            let w = dec_int(partitions as i128);
            let head = cat7(
                "topic ",
                topic,
                " already exists with ",
                a.as_str(),
                " partitions, but this run asked for ",
                w.as_str(),
                ". Reusing it would measure ",
            );
            let tail = cat4(
                a.as_str(),
                " while recording ",
                w.as_str(),
                "; delete the topic or pick another name.",
            );
            Err(cat2(head.as_str(), tail.as_str()))
        },
        TopicReply::Failed(why) => Err(cat4("failed to create topic ", topic, ": ", why.as_str())),
    }
}

/// What to make of a topic's metadata.
#[derive(Clone, Copy, Debug, PartialEq, Eq, Structural)]
pub enum MetadataStep {
    /// The topic has this many partitions.
    Settled(i32),
    /// Ask again.
    Retry,
    /// It never settled.
    GiveUp,
}

/// Metadata is settled once it carries partitions and no error: right after a
/// creation a broker may answer with an error and an empty list.
pub fn topic_partitions(has_error: bool, partitions: usize, past_deadline: bool) -> (r: MetadataStep)
    requires
        partitions <= i32::MAX,
    ensures
        r == if !has_error && partitions > 0 {
            MetadataStep::Settled(partitions as i32)
        } else if past_deadline {
            MetadataStep::GiveUp
        } else {
            MetadataStep::Retry
        },
{
    if !has_error && partitions > 0 {
        MetadataStep::Settled(partitions as i32)
    } else if past_deadline {
        MetadataStep::GiveUp
    } else {
        MetadataStep::Retry
    }
}

/// A refusal says first what is there and then what was asked for.
pub proof fn law_refusal_tells_both_shapes(topic: Seq<char>, actual: i32, wanted: i32)
    ensures
        begins(
            shape_refusal(topic, actual, wanted),
            "topic "@ + topic + " already exists with "@ + decimal_int(actual as int)
                + " partitions, but this run asked for "@ + decimal_int(wanted as int),
        ),
{
    let head = "topic "@ + topic + " already exists with "@ + decimal_int(actual as int)
        + " partitions, but this run asked for "@ + decimal_int(wanted as int);
    let r = shape_refusal(topic, actual, wanted);
    assert(r.take(head.len() as int) =~= head);
}

} // verus!

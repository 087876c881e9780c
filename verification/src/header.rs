//! The header of the request that asks for the connections of a consumer
//! group.

use vstd::prelude::*;

verus! {

/// The name of the field that holds the consumer group.
pub const CONSUMER_GROUP: &'static str = "consumerGroup";

/// The header of a request for the connections of a consumer group.
#[derive(Debug)]
pub struct GetConsumerConnectionListRequestHeader {
    pub consumer_group: String,
}

impl GetConsumerConnectionListRequestHeader {
    pub fn get_consumer_group(&self) -> (group: &String)
        ensures
            group@ == self.consumer_group@,
    {
        &self.consumer_group
    }

    pub fn set_consumer_group(&mut self, consumer_group: String)
        ensures
            final(self).consumer_group@ == consumer_group@,
    {
        self.consumer_group = consumer_group;
    }

    /// The header made of what a request's fields hold under
    /// `CONSUMER_GROUP`: the group named there, or the empty group if the
    /// field is missing. There always is one.
    pub fn from_field(consumer_group: Option<&String>) -> (header: Option<Self>)
        ensures
            header is Some,
            consumer_group matches Some(group) ==> header->0.consumer_group@ == group@,
            consumer_group is None ==> header->0.consumer_group@ == Seq::<char>::empty(),
    {
        let group = match consumer_group {
            Some(group) => group.clone(),
            None => String::new(),
        };
        Some(GetConsumerConnectionListRequestHeader { consumer_group: group })
    }
}

} // verus!

//! What is asked of a node.
use vstd::prelude::*;

use crate::key::Key;
use crate::key::KeyView;
use crate::message::ClearScope;

verus! {

/// When a conditional store applies.
#[derive(Clone, Copy, Debug, PartialEq, Eq)]
pub enum CasCondition {
    /// The key has no value.
    Absent,
    /// The key's value has this digest.
    Digest([u8; 16]),
}

/// What a client does with one key.
#[derive(Debug)]
pub enum KeyOperation {
    Get,
    Store { value: Vec<u8>, ttl: Option<u128> },
    Delete,
    Incr { delta: i64 },
    CasStore { condition: CasCondition, value: Vec<u8>, ttl: Option<u128> },
    CasDelete { expected_digest: [u8; 16] },
}

/// What a peer does with a key that the node may not own yet.
#[derive(Debug)]
pub enum HandoffOperation {
    Store { value: Vec<u8>, ttl: Option<u128>, if_absent: bool },
    Delete,
}

/// Discovery's request to hand keys over to a joining node.
#[derive(Debug)]
pub struct MigrateRequest {
    /// The token of the node that is asked.
    pub token: String,
    pub joining_name: String,
    pub joining_addr: String,
    pub joining_token: String,
    /// The nodes that have joined, with their addresses.
    pub joined: Vec<(String, String)>,
    pub replication: usize,
}

/// A request.
#[allow(inconsistent_fields)]
#[derive(Debug)]
pub enum Command {
    Auth { secret: Vec<u8>, tagging: bool },
    Migrate(MigrateRequest),
    CancelMigration { token: String, joining_name: String },
    Keyed { key: Key, operation: KeyOperation },
    Handoff { key: Key, operation: HandoffOperation, token: String },
    MultiGet { namespace: Vec<u8>, keys: Vec<Vec<u8>> },
    MultiSet { namespace: Vec<u8>, keys: Vec<Vec<u8>>, values: Vec<Vec<u8>>, ttl: Option<u128> },
    Clear(ClearScope),
}

impl Command {
    /// A write of several keys has a value for each.
    pub open spec fn wf(self) -> bool {
        self matches Command::MultiSet { keys, values, .. } ==> keys.len() == values.len()
    }
}

/// The key at a place of a list of names in one namespace.
pub open spec fn named(namespace: Seq<u8>, names: Seq<Vec<u8>>, index: int) -> KeyView {
    KeyView { namespace, name: names[index]@ }
}

} // verus!

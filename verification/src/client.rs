//! Clients: named sources of flows.

use crate::network::types::Flow;
use vstd::prelude::*;

verus! {

/// The identifier of a client.
#[derive(Debug, Default, Copy, Clone, PartialOrd, Ord, PartialEq, Eq, Structural, Hash)]
pub struct ClientId(pub usize);

impl ClientId {
    /// The identifier with the number `val`.
    pub fn new(val: usize) -> (r: Self)
        ensures
            r == ClientId(val),
    {
        ClientId(val)
    }

    /// The number of the identifier.
    pub fn inner(self) -> (r: usize)
        ensures
            r == self.0,
    {
        self.0
    }
}

/// The identifier of a node as a client numbers it, before the client is
/// placed on a network.
#[derive(Debug, Default, Copy, Clone, PartialOrd, Ord, PartialEq, Eq, Structural, Hash)]
pub struct VNodeId(pub usize);

impl VNodeId {
    /// The identifier with the number `val`.
    pub fn new(val: usize) -> (r: Self)
        ensures
            r == VNodeId(val),
    {
        VNodeId(val)
    }

    /// The number of the identifier.
    pub fn inner(self) -> (r: usize)
        ensures
            r == self.0,
    {
        self.0
    }
}

/// A client with its flows between nodes of the network.
#[derive(Debug)]
pub struct Client {
    pub id: ClientId,
    pub name: String,
    pub flows: Vec<Flow>,
}

impl Client {
    /// A client with the given name and flows.
    pub fn new(id: ClientId, name: String, flows: Vec<Flow>) -> (r: Self)
        ensures
            r.id == id,
            r.name == name,
            r.flows == flows,
    {
        Client { id, name, flows }
    }

    /// The client's name.
    pub fn name(&self) -> (r: &str)
        ensures
            r@ == self.name@,
    {
        self.name.as_str()
    }

    /// The client's flows.
    pub fn flows(&self) -> (r: &[Flow])
        ensures
            r@ == self.flows@,
    {
        self.flows.as_slice()
    }

    /// The client's flows, to be changed in place.
    pub fn flows_mut(&mut self) -> (r: &mut Vec<Flow>)
        ensures
            *r == old(self).flows,
            final(self).flows == *final(r),
            final(self).id == old(self).id,
            final(self).name == old(self).name,
    {
        &mut self.flows
    }
}

/// A flow of a client between two of its own nodes.
#[derive(Debug, Clone, Copy, PartialEq, Eq, Structural)]
pub struct VFlow {
    pub client: ClientId,
    pub src: VNodeId,
    pub dst: VNodeId,
    pub size: u64,
}

/// A client that is not yet placed on a network: it numbers its nodes from
/// zero.
#[derive(Debug)]
pub struct VClient {
    pub id: ClientId,
    pub name: String,
    pub nr_nodes: usize,
    pub flows: Vec<VFlow>,
}

} // verus!

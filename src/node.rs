use vstd::prelude::*;

verus! {

/// The mathematical value of a [`Node`]: its fields as plain sequences.
pub ghost struct NodeView {
    pub address: Seq<char>,
    pub ipv6_address: Option<Seq<char>>,
    pub port: u16,
}

impl NodeView {
    /// The matching key of a node: two nodes are the same peer exactly when
    /// their addresses and ports agree.
    pub open spec fn key(self) -> (Seq<char>, u16) {
        (self.address, self.port)
    }

    /// The node as the registry stores it: the secondary address is cleared.
    pub open spec fn normalized(self) -> NodeView {
        NodeView { address: self.address, ipv6_address: None, port: self.port }
    }
}

/// One peer of the network.
#[derive(Debug)]
pub struct Node {
    /// The peer's reachable address, in IPv4 textual form.
    pub address: String,
    /// Reserved for a future IPv6 address; no operation reads it.
    pub ipv6_address: Option<String>,
    /// The peer's port.
    pub port: u16,
}

impl View for Node {
    type V = NodeView;

    open spec fn view(&self) -> NodeView {
        NodeView {
            address: self.address@,
            ipv6_address: match &self.ipv6_address {
                Some(s) => Some(s@),
                None => None,
            },
            port: self.port,
        }
    }
}

impl Node {
    /// A node with the given address and port and no secondary address.
    pub fn new(address: String, port: u16) -> (r: Node)
        ensures
            r@ == (NodeView { address: address@, ipv6_address: None, port }),
    {
        Node { address, ipv6_address: None, port }
    }

    /// A copy of this node with the secondary address cleared.
    pub fn normalized(&self) -> (r: Node)
        ensures
            r@ == self@.normalized(),
    {
        Node { address: self.address.clone(), ipv6_address: None, port: self.port }
    }

    /// Whether `other` names the same peer: same address and same port.
    pub fn same_key(&self, other: &Node) -> (r: bool)
        ensures
            r == (self@.key() == other@.key()),
    {
        self.port == other.port && self.address == other.address
    }
}

} // verus!

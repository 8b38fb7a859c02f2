use vstd::prelude::*;
use rand::Rng;
use crate::node::{Node, NodeView};

verus! {

/// The collection after `n` is registered in `s`: one more entry, at the end.
pub open spec fn registered(s: Seq<NodeView>, n: NodeView) -> Seq<NodeView> {
    s.push(n.normalized())
}

/// The collection after `n` is deregistered from `s`: every entry with the
/// key of `n` is gone, the others stay in their order.
pub open spec fn deregistered(s: Seq<NodeView>, n: NodeView) -> Seq<NodeView> {
    s.filter(|m: NodeView| m.key() != n.key())
}

/// Every entry left by a deregistration was an entry before it, and does
/// not carry the key that was deregistered.
pub proof fn lemma_deregistered_members(s: Seq<NodeView>, n: NodeView)
    ensures
        forall|j: int|
            0 <= j < deregistered(s, n).len() ==> s.contains(#[trigger] deregistered(s, n)[j])
                && deregistered(s, n)[j].key() != n.key(),
    decreases s.len(),
{
    reveal(Seq::filter);
    if s.len() > 0 {
        lemma_deregistered_members(s.drop_last(), n);
        let d = deregistered(s, n);
        let prev = deregistered(s.drop_last(), n);
        assert forall|j: int| 0 <= j < d.len() implies s.contains(#[trigger] d[j]) && d[j].key() != n.key() by {
            if j < prev.len() {
                assert(d[j] == prev[j]);
                let k = choose|k: int| 0 <= k < s.drop_last().len() && s.drop_last()[k] == prev[j];
                assert(s[k] == d[j]);
            } else {
                assert(d[j] == s.last());
                assert(s[s.len() - 1] == d[j]);
            }
        }
    }
}

/// Relies on rand's `Rng::gen_range` over the thread-local generator: for a
/// non-empty range `0..len` it returns a value in the range (it panics on an
/// empty one).
#[verifier::external_body]
fn random_index(len: usize) -> (r: usize)
    requires
        len > 0,
    ensures
        r < len,
{
    rand::thread_rng().gen_range(0..len)
}

/// The set of currently announced nodes. Duplicates are kept: a node
/// registered twice has two entries. Every operation takes the registry by
/// reference for its whole run, so tasks that share one registry hold it
/// behind a single lock and their operations apply one at a time.
pub struct Registry {
    nodes: Vec<Node>,
}

impl View for Registry {
    type V = Seq<NodeView>;

    closed spec fn view(&self) -> Seq<NodeView> {
        self.nodes@.map_values(|n: Node| n@)
    }
}

impl Registry {
    /// Every stored node has its secondary address cleared.
    pub open spec fn wf(&self) -> bool {
        forall|i: int| 0 <= i < self@.len() ==> (#[trigger] self@[i]).ipv6_address is None
    }

    /// An empty registry.
    pub fn new() -> (r: Registry)
        ensures
            r.wf(),
            r@ == Seq::<NodeView>::empty(),
    {
        let r = Registry { nodes: Vec::new() };
        assert(r@ =~= Seq::<NodeView>::empty());
        r
    }

    /// The number of entries, duplicates included.
    pub fn len(&self) -> (r: usize)
        ensures
            r == self@.len(),
    {
        self.nodes.len()
    }

    /// Whether no node is registered.
    pub fn is_empty(&self) -> (r: bool)
        ensures
            r == (self@.len() == 0),
    {
        self.nodes.len() == 0
    }

    /// Appends `node`, with its secondary address cleared. Existing entries
    /// with the same key are kept.
    pub fn register(&mut self, node: Node)
        requires
            old(self).wf(),
        ensures
            final(self).wf(),
            final(self)@ == registered(old(self)@, node@),
    {
        let stored = Node { address: node.address, ipv6_address: None, port: node.port };
        self.nodes.push(stored);
        assert(self@ =~= registered(old(self)@, node@));
    }

    /// Removes every entry whose address and port equal those of `node`.
    pub fn deregister(&mut self, node: &Node)
        requires
            old(self).wf(),
        ensures
            final(self).wf(),
            final(self)@ == deregistered(old(self)@, node@),
    {
        let ghost s = self@;
        let mut kept: Vec<Node> = Vec::new();
        let mut i: usize = 0;
        assert(kept@.map_values(|n: Node| n@) =~= deregistered(s.subrange(0, 0), node@)) by {
            reveal(Seq::filter);
        }
        while i < self.nodes.len()
            invariant
                i <= self.nodes@.len(),
                self@ == s,
                self.wf(),
                kept@.map_values(|n: Node| n@) == deregistered(s.subrange(0, i as int), node@),
            decreases self.nodes@.len() - i,
        {
            let ghost prev = kept@.map_values(|n: Node| n@);
            let ghost next = s.subrange(0, i + 1);
            assert(next.drop_last() =~= s.subrange(0, i as int));
            assert(next.last() == s[i as int]);
            assert(self.nodes@[i as int]@ == s[i as int]);
            let n = &self.nodes[i];
            if !n.same_key(node) {
                let c = n.normalized();
                kept.push(c);
                assert(kept@.map_values(|n: Node| n@) =~= prev.push(s[i as int]));
            } else {
                assert(kept@.map_values(|n: Node| n@) =~= prev);
            }
            assert(kept@.map_values(|n: Node| n@) == deregistered(next, node@)) by {
                reveal(Seq::filter);
            }
            i = i + 1;
        }
        assert(s.subrange(0, i as int) =~= s);
        self.nodes = kept;
        assert forall|j: int| 0 <= j < self@.len() implies (#[trigger] self@[j]).ipv6_address is None by {
            lemma_deregistered_members(s, node@);
            let k = choose|k: int| 0 <= k < s.len() && s[k] == self@[j];
            assert(old(self)@[k].ipv6_address is None);
        }
    }

    /// The entry at `index`, or `None` where `index` is past the end. A
    /// uniform draw of `index` below the length gives every entry the same
    /// chance, so a node registered twice is twice as likely as one
    /// registered once.
    pub fn select(&self, index: usize) -> (r: Option<Node>)
        ensures
            index < self@.len() ==> (r matches Some(m) && m@ == self@[index as int].normalized()),
            index >= self@.len() ==> r is None,
    {
        if index < self.nodes.len() {
            Some(self.nodes[index].normalized())
        } else {
            None
        }
    }

    /// A copy of one entry drawn uniformly at random, or `None` when the
    /// registry is empty.
    pub fn pick_random(&self) -> (r: Option<Node>)
        requires
            self.wf(),
        ensures
            r is None <==> self@.len() == 0,
            r matches Some(m) ==> self@.contains(m@),
    {
        if self.nodes.len() == 0 {
            None
        } else {
            let i = random_index(self.nodes.len());
            let r = self.select(i);
            assert(self@[i as int].normalized() == self@[i as int]);
            r
        }
    }
}

} // verus!

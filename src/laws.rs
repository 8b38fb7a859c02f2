use vstd::prelude::*;
use crate::node::NodeView;
use crate::registry::{deregistered, lemma_deregistered_members, registered};

verus! {

/// The collection after each node of `regs` is registered in turn, starting
/// from `s`.
pub open spec fn register_all(s: Seq<NodeView>, regs: Seq<NodeView>) -> Seq<NodeView>
    decreases regs.len(),
{
    if regs.len() == 0 {
        s
    } else {
        registered(register_all(s, regs.drop_last()), regs.last())
    }
}

/// The collection after each node of `ds` is deregistered in turn, starting
/// from `s`.
pub open spec fn deregister_all(s: Seq<NodeView>, ds: Seq<NodeView>) -> Seq<NodeView>
    decreases ds.len(),
{
    if ds.len() == 0 {
        s
    } else {
        deregistered(deregister_all(s, ds.drop_last()), ds.last())
    }
}

/// Deregistering `n` after appending an entry with another key keeps that
/// entry at the end.
proof fn lemma_deregistered_push(s: Seq<NodeView>, x: NodeView, n: NodeView)
    ensures
        deregistered(s.push(x), n) == if x.key() != n.key() {
            deregistered(s, n).push(x)
        } else {
            deregistered(s, n)
        },
{
    reveal(Seq::filter);
    assert(s.push(x).drop_last() =~= s);
}

/// In a registry that held nothing, registering `n` leaves one entry, so a
/// random pick finds something, and whatever it finds is `n` (with its
/// secondary address cleared).
pub proof fn law_register_then_pick(n: NodeView)
    ensures
        registered(Seq::empty(), n).len() == 1,
        forall|m: NodeView| #[trigger] registered(Seq::empty(), n).contains(m) ==> m == n.normalized(),
{
    assert forall|m: NodeView| #[trigger] registered(Seq::empty(), n).contains(m) implies m == n.normalized() by {
        let k = choose|k: int| 0 <= k < registered(Seq::empty(), n).len() && registered(Seq::empty(), n)[k] == m;
        assert(k == 0);
    }
}

/// Registering `n` any number of times and then deregistering it once
/// removes every one of those entries: the result is what deregistering `n`
/// alone would leave, and nothing at all when the registry started empty.
pub proof fn law_deregister_removes_all_copies(s: Seq<NodeView>, n: NodeView, k: nat)
    ensures
        deregistered(register_all(s, Seq::new(k, |i: int| n)), n) == deregistered(s, n),
        deregistered(register_all(Seq::empty(), Seq::new(k, |i: int| n)), n).len() == 0,
    decreases k,
{
    if k > 0 {
        let copies = Seq::new(k, |i: int| n);
        assert(copies.drop_last() =~= Seq::new((k - 1) as nat, |i: int| n));
        law_deregister_removes_all_copies(s, n, (k - 1) as nat);
        lemma_deregistered_push(register_all(s, copies.drop_last()), n.normalized(), n);
        lemma_deregistered_push(register_all(Seq::empty(), copies.drop_last()), n.normalized(), n);
    } else {
        assert(Seq::new(k, |i: int| n) =~= Seq::<NodeView>::empty());
        assert(deregistered(Seq::<NodeView>::empty(), n) =~= Seq::<NodeView>::empty()) by {
            reveal(Seq::filter);
        }
    }
}

/// Deregistering a key that no entry carries changes nothing; in particular
/// the number of entries stays the same.
pub proof fn law_deregister_unmatched(s: Seq<NodeView>, n: NodeView)
    requires
        forall|i: int| 0 <= i < s.len() ==> (#[trigger] s[i]).key() != n.key(),
    ensures
        deregistered(s, n) == s,
        deregistered(s, n).len() == s.len(),
    decreases s.len(),
{
    if s.len() == 0 {
        reveal(Seq::filter);
    } else {
        law_deregister_unmatched(s.drop_last(), n);
        lemma_deregistered_push(s.drop_last(), s.last(), n);
        assert(s.drop_last().push(s.last()) =~= s);
    }
}

/// Every entry left after the deregistrations `ds` was an entry of `s`, and
/// its key is that of none of `ds`.
pub proof fn lemma_deregister_all_members(s: Seq<NodeView>, ds: Seq<NodeView>)
    ensures
        forall|j: int|
            0 <= j < deregister_all(s, ds).len() ==> s.contains(#[trigger] deregister_all(s, ds)[j])
                && forall|d: int| 0 <= d < ds.len() ==> (#[trigger] ds[d]).key() != deregister_all(s, ds)[j].key(),
    decreases ds.len(),
{
    if ds.len() > 0 {
        let prev = deregister_all(s, ds.drop_last());
        lemma_deregister_all_members(s, ds.drop_last());
        lemma_deregistered_members(prev, ds.last());
        let r = deregister_all(s, ds);
        assert forall|j: int| 0 <= j < r.len() implies s.contains(#[trigger] r[j])
            && forall|d: int| 0 <= d < ds.len() ==> (#[trigger] ds[d]).key() != r[j].key() by {
            let k = choose|k: int| 0 <= k < prev.len() && prev[k] == r[j];
            assert forall|d: int| 0 <= d < ds.len() implies (#[trigger] ds[d]).key() != r[j].key() by {
                if d < ds.len() - 1 {
                    assert(ds.drop_last()[d] == ds[d]);
                }
            }
        }
    }
}

/// Registrations that run one at a time, in any order, lose and duplicate
/// nothing: starting empty, the registry then holds exactly the registered
/// nodes. Deregistrations that follow, in any order, of nodes that cover
/// every registered key leave it empty.
pub proof fn law_serialized_register_deregister(regs: Seq<NodeView>, ds: Seq<NodeView>)
    requires
        forall|i: int| 0 <= i < regs.len() ==> exists|d: int| 0 <= d < ds.len() && (#[trigger] ds[d]).key() == (#[trigger] regs[i]).key(),
    ensures
        register_all(Seq::empty(), regs) == regs.map_values(|n: NodeView| n.normalized()),
        deregister_all(register_all(Seq::empty(), regs), ds).len() == 0,
{
    lemma_register_all_from_empty(regs);
    let s = register_all(Seq::empty(), regs);
    let r = deregister_all(s, ds);
    lemma_deregister_all_members(s, ds);
    if r.len() > 0 {
        assert(s.contains(r[0]));
        let k = choose|k: int| 0 <= k < s.len() && s[k] == r[0];
        assert(s[k] == regs[k].normalized());
        let d = choose|d: int| 0 <= d < ds.len() && (#[trigger] ds[d]).key() == regs[k].key();
        assert(ds[d].key() != r[0].key());
    }
}

proof fn lemma_register_all_from_empty(regs: Seq<NodeView>)
    ensures
        register_all(Seq::empty(), regs) == regs.map_values(|n: NodeView| n.normalized()),
    decreases regs.len(),
{
    if regs.len() > 0 {
        lemma_register_all_from_empty(regs.drop_last());
        assert(regs.map_values(|n: NodeView| n.normalized()) =~= regs.drop_last().map_values(
            |n: NodeView| n.normalized(),
        ).push(regs.last().normalized()));
    } else {
        assert(regs.map_values(|n: NodeView| n.normalized()) =~= Seq::<NodeView>::empty());
    }
}

/// The draws `i` below the length for which `select(i)` yields `m`.
pub open spec fn draws_selecting(s: Seq<NodeView>, m: NodeView) -> Set<int> {
    Set::new(|i: int| 0 <= i < s.len() && s[i] == m)
}

/// How many entries of `s` equal `m`.
pub open spec fn multiplicity(s: Seq<NodeView>, m: NodeView) -> nat
    decreases s.len(),
{
    if s.len() == 0 {
        0
    } else {
        multiplicity(s.drop_last(), m) + if s.last() == m {
            1nat
        } else {
            0nat
        }
    }
}

/// A random pick draws an index uniformly below the length; the number of
/// draws that yield `m` is the number of entries equal to `m`. So a node
/// registered twice is picked twice as often as one registered once.
pub proof fn law_selection_weight(s: Seq<NodeView>, m: NodeView)
    ensures
        draws_selecting(s, m).finite(),
        draws_selecting(s, m).len() == multiplicity(s, m),
    decreases s.len(),
{
    if s.len() == 0 {
        assert(draws_selecting(s, m) =~= Set::<int>::empty());
    } else {
        let p = s.drop_last();
        law_selection_weight(p, m);
        let last = s.len() - 1;
        assert(!draws_selecting(p, m).contains(last));
        if s.last() == m {
            assert(draws_selecting(s, m) =~= draws_selecting(p, m).insert(last));
        } else {
            assert(draws_selecting(s, m) =~= draws_selecting(p, m));
        }
    }
}

} // verus!

//! The per-node routing entry: best known predecessor and total cost, and
//! the best cost seen via each distinct predecessor.

use std::collections::HashMap;

use vstd::prelude::*;

use crate::Cost;
use crate::Node;

verus! {

/// Routing state for one reached node: `paths` maps each predecessor seen so
/// far to the best total cost via that predecessor, and `minimal_from` /
/// `minimal_cost` cache the best of them.
pub struct RoutingInfo {
    pub minimal_from: Node,
    pub minimal_cost: Cost,
    pub paths: HashMap<Node, Cost>,
}

impl RoutingInfo {
    /// The cached minimum agrees with `paths`: `minimal_cost` is the value
    /// recorded for `minimal_from`, and no predecessor offers less.
    pub open spec fn wf(&self) -> bool {
        &&& self.paths@.contains_key(self.minimal_from)
        &&& self.paths@[self.minimal_from] == self.minimal_cost
        &&& forall|p: Node|
            self.paths@.contains_key(p) ==> self.minimal_cost <= #[trigger] self.paths@[p]
    }

    /// A fresh entry for a node first reached from `from` at total cost
    /// `cost`.
    pub fn new(from: Node, cost: Cost) -> (r: Self)
        ensures
            r.minimal_from == from,
            r.minimal_cost == cost,
            r.paths@ == Map::<Node, Cost>::empty().insert(from, cost),
            r.wf(),
    {
        let mut paths = HashMap::new();
        paths.insert(from, cost);
        RoutingInfo { minimal_from: from, minimal_cost: cost, paths }
    }

    /// Record that the node can be reached from `from` at total cost `cost`.
    /// Returns whether this improved the cost recorded for that specific
    /// predecessor; the cached minimum is updated when the new cost beats it.
    /// `minimal_cost` never increases.
    pub fn update_path(&mut self, from: Node, _to: Node, cost: Cost) -> (updated: bool)
        requires
            old(self).wf(),
        ensures
            final(self).wf(),
            updated == (!old(self).paths@.contains_key(from) || old(self).paths@[from] > cost),
            final(self).paths@ == (if updated {
                old(self).paths@.insert(from, cost)
            } else {
                old(self).paths@
            }),
            final(self).minimal_cost == (if updated && old(self).minimal_cost > cost {
                cost
            } else {
                old(self).minimal_cost
            }),
            final(self).minimal_from == (if updated && old(self).minimal_cost > cost {
                from
            } else {
                old(self).minimal_from
            }),
            final(self).minimal_cost <= old(self).minimal_cost,
            !updated ==> *final(self) == *old(self),
    {
        let updated: bool;
        match self.paths.get(&from) {
            Some(old_cost) => {
                if *old_cost > cost {
                    self.paths.insert(from, cost);
                    updated = true;
                } else {
                    updated = false;
                }
            },
            None => {
                self.paths.insert(from, cost);
                updated = true;
            },
        }
        if updated && self.minimal_cost > cost {
            self.minimal_from = from;
            self.minimal_cost = cost;
        }
        updated
    }
}

} // verus!

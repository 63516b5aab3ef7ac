//! The relaxation queue: a deduplicating worklist of pending "try this edge"
//! tasks, keyed by `(from, to)`, always holding the minimum cost offered so
//! far for that pair. Tasks leave in ascending key order.

use vstd::prelude::*;

use crate::Cost;
use crate::Edge;
use crate::Node;

verus! {

/// Strict ascending order on `(from, to)` keys.
pub open spec fn key_lt(a: (Node, Node), b: (Node, Node)) -> bool {
    a.0 < b.0 || (a.0 == b.0 && a.1 < b.1)
}

pub open spec fn key_le(a: (Node, Node), b: (Node, Node)) -> bool {
    a == b || key_lt(a, b)
}

/// The key a task is deduplicated by.
pub open spec fn task_key(t: Edge) -> (Node, Node) {
    (t.0, t.1)
}

/// What one pending task of cost `c` contributes to the queue's termination
/// potential. At least 2, so that popping any task pays for itself; at most
/// `0x8000_0001`, since `c` is a 32-bit value.
pub open spec fn cost_pot(c: Cost) -> nat {
    if c >= 0 {
        (c + 2) as nat
    } else {
        2
    }
}

/// The pending tasks as a map from `(from, to)` to the pending cost.
spec fn task_map(s: Seq<Edge>) -> Map<(Node, Node), Cost>
    decreases s.len(),
{
    if s.len() == 0 {
        Map::empty()
    } else {
        task_map(s.drop_last()).insert(task_key(s.last()), s.last().2)
    }
}

/// Total potential of a task list.
spec fn tasks_pot(s: Seq<Edge>) -> nat
    decreases s.len(),
{
    if s.len() == 0 {
        0
    } else {
        tasks_pot(s.drop_last()) + cost_pot(s.last().2)
    }
}

spec fn sorted_keys(s: Seq<Edge>) -> bool {
    forall|i: int, j: int|
        0 <= i < j < s.len() ==> key_lt(task_key(#[trigger] s[i]), task_key(#[trigger] s[j]))
}

proof fn lemma_task_map_contains(s: Seq<Edge>, k: (Node, Node))
    ensures
        task_map(s).contains_key(k) <==> exists|i: int|
            0 <= i < s.len() && task_key(#[trigger] s[i]) == k,
    decreases s.len(),
{
    if s.len() > 0 {
        lemma_task_map_contains(s.drop_last(), k);
        if task_key(s.last()) == k {
            assert(task_key(s[s.len() - 1]) == k);
        } else {
            if exists|i: int| 0 <= i < s.len() && task_key(#[trigger] s[i]) == k {
                let i = choose|i: int| 0 <= i < s.len() && task_key(#[trigger] s[i]) == k;
                assert(task_key(s.drop_last()[i]) == k);
            }
            if exists|i: int| 0 <= i < s.drop_last().len() && task_key(
                #[trigger] s.drop_last()[i],
            ) == k {
                let i = choose|i: int|
                    0 <= i < s.drop_last().len() && task_key(#[trigger] s.drop_last()[i]) == k;
                assert(task_key(s[i]) == k);
            }
        }
    }
}

proof fn lemma_task_map_index(s: Seq<Edge>, i: int)
    requires
        sorted_keys(s),
        0 <= i < s.len(),
    ensures
        task_map(s).contains_key(task_key(s[i])),
        task_map(s)[task_key(s[i])] == s[i].2,
    decreases s.len(),
{
    if i < s.len() - 1 {
        assert(sorted_keys(s.drop_last())) by {
            assert(forall|j: int| 0 <= j < s.len() - 1 ==> s.drop_last()[j] == s[j]);
        }
        assert(s.drop_last()[i] == s[i]);
        lemma_task_map_index(s.drop_last(), i);
        assert(key_lt(task_key(s[i]), task_key(s.last())));
    }
}

proof fn lemma_task_map_insert(s: Seq<Edge>, i: int, t: Edge)
    requires
        0 <= i <= s.len(),
        forall|j: int| 0 <= j < s.len() ==> task_key(#[trigger] s[j]) != task_key(t),
    ensures
        task_map(s.insert(i, t)) == task_map(s).insert(task_key(t), t.2),
        tasks_pot(s.insert(i, t)) == tasks_pot(s) + cost_pot(t.2),
    decreases s.len(),
{
    let s2 = s.insert(i, t);
    s.insert_ensures(i, t);
    if i == s.len() {
        assert(s2 =~= s.push(t));
        assert(s.push(t).drop_last() =~= s);
    } else {
        assert(s2.last() == s[s.len() - 1]);
        assert(s2.drop_last() =~= s.drop_last().insert(i, t)) by {
            s.drop_last().insert_ensures(i, t);
        }
        assert(forall|j: int|
            0 <= j < s.drop_last().len() ==> task_key(#[trigger] s.drop_last()[j]) != task_key(t));
        lemma_task_map_insert(s.drop_last(), i, t);
        assert(task_key(s.last()) != task_key(t));
        assert(task_map(s.drop_last()).insert(task_key(t), t.2).insert(
            task_key(s.last()),
            s.last().2,
        ) =~= task_map(s.drop_last()).insert(task_key(s.last()), s.last().2).insert(
            task_key(t),
            t.2,
        ));
    }
}

proof fn lemma_task_map_update(s: Seq<Edge>, i: int, t: Edge)
    requires
        sorted_keys(s),
        0 <= i < s.len(),
        task_key(s[i]) == task_key(t),
    ensures
        task_map(s.update(i, t)) == task_map(s).insert(task_key(t), t.2),
        tasks_pot(s.update(i, t)) + cost_pot(s[i].2) == tasks_pot(s) + cost_pot(t.2),
    decreases s.len(),
{
    let s2 = s.update(i, t);
    if i == s.len() - 1 {
        assert(s2.drop_last() =~= s.drop_last());
        assert(s2.last() == t);
        assert(task_map(s.drop_last()).insert(task_key(s.last()), s.last().2).insert(
            task_key(t),
            t.2,
        ) =~= task_map(s.drop_last()).insert(task_key(t), t.2));
    } else {
        assert(s2.drop_last() =~= s.drop_last().update(i, t));
        assert(s2.last() == s.last());
        assert(sorted_keys(s.drop_last())) by {
            assert(forall|j: int| 0 <= j < s.len() - 1 ==> s.drop_last()[j] == s[j]);
        }
        assert(s.drop_last()[i] == s[i]);
        lemma_task_map_update(s.drop_last(), i, t);
        assert(key_lt(task_key(s[i]), task_key(s.last())));
        assert(task_map(s.drop_last()).insert(task_key(t), t.2).insert(
            task_key(s.last()),
            s.last().2,
        ) =~= task_map(s.drop_last()).insert(task_key(s.last()), s.last().2).insert(
            task_key(t),
            t.2,
        ));
    }
}

proof fn lemma_task_map_remove_first(s: Seq<Edge>)
    requires
        sorted_keys(s),
        s.len() > 0,
    ensures
        task_map(s.remove(0)) == task_map(s).remove(task_key(s[0])),
        tasks_pot(s.remove(0)) + cost_pot(s[0].2) == tasks_pot(s),
    decreases s.len(),
{
    let s2 = s.remove(0);
    if s.len() == 1 {
        assert(s2 =~= Seq::<Edge>::empty());
        assert(s.drop_last() =~= Seq::<Edge>::empty());
        assert(task_map(Seq::<Edge>::empty()) == Map::<(Node, Node), Cost>::empty());
        assert(task_map(s) == Map::<(Node, Node), Cost>::empty().insert(task_key(s[0]), s[0].2));
        assert(task_map(s).remove(task_key(s[0])) =~= Map::<(Node, Node), Cost>::empty());
    } else {
        assert(s2.drop_last() =~= s.drop_last().remove(0));
        assert(s2.last() == s.last());
        assert(sorted_keys(s.drop_last())) by {
            assert(forall|j: int| 0 <= j < s.len() - 1 ==> s.drop_last()[j] == s[j]);
        }
        lemma_task_map_remove_first(s.drop_last());
        assert(s.drop_last()[0] == s[0]);
        assert(key_lt(task_key(s[0]), task_key(s.last())));
        assert(task_map(s.drop_last()).remove(task_key(s[0])).insert(
            task_key(s.last()),
            s.last().2,
        ) =~= task_map(s.drop_last()).insert(task_key(s.last()), s.last().2).remove(
            task_key(s[0]),
        ));
    }
}

/// The deduplicating relaxation queue. At most one pending task exists per
/// ordered `(from, to)` pair at any time, holding the smallest cost offered
/// for that pair.
pub struct WorkQueue {
    tasks: Vec<Edge>,
}

impl View for WorkQueue {
    type V = Map<(Node, Node), Cost>;

    closed spec fn view(&self) -> Map<(Node, Node), Cost> {
        task_map(self.tasks@)
    }
}

impl WorkQueue {
    /// The pending tasks are kept in strictly ascending key order, so keys
    /// are unique and the head holds the least key.
    pub closed spec fn wf(&self) -> bool {
        sorted_keys(self.tasks@)
    }

    /// Termination potential of the queue: each pop pays `cost_pot` of the
    /// task it removes, and each offer adds at most `cost_pot` of the cost
    /// offered.
    pub closed spec fn pot(&self) -> nat {
        tasks_pot(self.tasks@)
    }

    pub fn new() -> (q: Self)
        ensures
            q.wf(),
            q@ == Map::<(Node, Node), Cost>::empty(),
            q.pot() == 0,
    {
        WorkQueue { tasks: Vec::new() }
    }

    /// Offer a candidate cost for the pair `(from, to)`: inserted if the pair
    /// is not pending, replaced if it improves on the pending cost, and
    /// discarded otherwise.
    pub fn push_task(&mut self, from: Node, to: Node, new_cost: Cost)
        requires
            old(self).wf(),
        ensures
            final(self).wf(),
            final(self)@ == (if old(self)@.contains_key((from, to)) && old(self)@[(from, to)]
                <= new_cost {
                old(self)@
            } else {
                old(self)@.insert((from, to), new_cost)
            }),
            final(self).pot() <= old(self).pot() + cost_pot(new_cost),
    {
        let ghost s = self.tasks@;
        let ghost k = (from, to);
        let mut i: usize = 0;
        loop
            invariant
                self.tasks@ == s,
                k == (from, to),
                i <= s.len(),
                forall|j: int| 0 <= j < i ==> key_lt(task_key(#[trigger] s[j]), k),
            ensures
                self.tasks@ == s,
                i <= s.len(),
                forall|j: int| 0 <= j < i ==> key_lt(task_key(#[trigger] s[j]), k),
                i < s.len() ==> !key_lt(task_key(s[i as int]), k),
            decreases s.len() - i,
        {
            if i >= self.tasks.len() {
                break;
            }
            let t = self.tasks[i];
            if !(t.0 < from || (t.0 == from && t.1 < to)) {
                break;
            }
            proof {
                assert(key_lt(task_key(s[i as int]), k));
            }
            i = i + 1;
        }
        proof {
            if i < s.len() {
                assert(!key_lt(task_key(s[i as int]), k));
            }
            assert(forall|j: int|
                i < j < s.len() ==> key_lt(task_key(s[i as int]), task_key(#[trigger] s[j])));
        }
        if i < self.tasks.len() && self.tasks[i].0 == from && self.tasks[i].1 == to {
            proof {
                lemma_task_map_index(s, i as int);
            }
            if self.tasks[i].2 > new_cost {
                self.tasks.set(i, (from, to, new_cost));
                proof {
                    lemma_task_map_update(s, i as int, (from, to, new_cost));
                    assert(sorted_keys(self.tasks@)) by {
                        assert(forall|j: int|
                            0 <= j < s.len() ==> task_key(#[trigger] self.tasks@[j]) == task_key(
                                s[j],
                            ));
                    }
                }
            }
        } else {
            proof {
                assert(forall|j: int| 0 <= j < s.len() ==> task_key(#[trigger] s[j]) != k) by {
                    assert(forall|j: int|
                        i <= j < s.len() ==> key_le(task_key(s[i as int]), task_key(
                            #[trigger] s[j],
                        )));
                }
                lemma_task_map_contains(s, k);
                lemma_task_map_insert(s, i as int, (from, to, new_cost));
            }
            self.tasks.insert(i, (from, to, new_cost));
            proof {
                s.insert_ensures(i as int, (from, to, new_cost));
                assert(forall|j: int| i <= j < s.len() ==> key_lt(k, task_key(#[trigger] s[j])));
                assert(sorted_keys(self.tasks@));
            }
        }
    }

    /// Remove and return the pending task with the least `(from, to)` key,
    /// or report the queue empty.
    pub fn pop_task(&mut self) -> (r: Option<Edge>)
        requires
            old(self).wf(),
        ensures
            final(self).wf(),
            match r {
                None => {
                    &&& old(self)@ == Map::<(Node, Node), Cost>::empty()
                    &&& final(self)@ == old(self)@
                    &&& final(self).pot() == old(self).pot()
                },
                Some(t) => {
                    &&& old(self)@.contains_key((t.0, t.1))
                    &&& old(self)@[(t.0, t.1)] == t.2
                    &&& final(self)@ == old(self)@.remove((t.0, t.1))
                    &&& forall|k: (Node, Node)|
                        old(self)@.contains_key(k) ==> key_le((t.0, t.1), k)
                    &&& final(self).pot() + cost_pot(t.2) == old(self).pot()
                },
            },
    {
        let ghost s = self.tasks@;
        if self.tasks.len() == 0 {
            return None;
        }
        let t = self.tasks.remove(0);
        proof {
            lemma_task_map_index(s, 0);
            lemma_task_map_remove_first(s);
            assert(task_key(s[0]) == (t.0, t.1));
            assert(forall|k: (Node, Node)|
                old(self)@.contains_key(k) ==> key_le((t.0, t.1), k)) by {
                assert forall|k: (Node, Node)| old(self)@.contains_key(k) implies key_le(
                    (t.0, t.1),
                    k,
                ) by {
                    lemma_task_map_contains(s, k);
                    let i = choose|i: int| 0 <= i < s.len() && task_key(#[trigger] s[i]) == k;
                    if i > 0 {
                        assert(key_lt(task_key(s[0]), task_key(s[i])));
                    }
                }
            }
            assert(sorted_keys(self.tasks@)) by {
                assert(forall|j: int|
                    0 <= j < self.tasks@.len() ==> self.tasks@[j] == s[j + 1]);
            }
        }
        Some(t)
    }
}

} // verus!

//! Which transactions wait for which, and the search for a chain of waits.

use vstd::prelude::*;

use crate::common::ordmap::{ascending, OrdMap};
use crate::common::ordset::{sorted, OrdSet};
use crate::common::value::TransactionId;

verus! {

/// For each transaction the transactions that it waits for.
pub type WaitGraph = Map<TransactionId, Set<TransactionId>>;

/// The transactions that one transaction waits for.
pub open spec fn waits_of(graph: WaitGraph, txn: TransactionId) -> Set<TransactionId> {
    if graph.dom().contains(txn) {
        graph[txn]
    } else {
        Set::empty()
    }
}

/// Whether a sequence of transactions leads from one to another, each waiting for the next.
pub open spec fn is_wait_path(
    graph: WaitGraph,
    path: Seq<TransactionId>,
    from: TransactionId,
    to: TransactionId,
) -> bool {
    &&& path.len() > 0
    &&& path[0] == from
    &&& path.last() == to
    &&& forall|i: int|
        0 <= i < path.len() - 1 ==> #[trigger] waits_of(graph, path[i]).contains(path[i + 1])
}

/// Whether one transaction waits for another, directly or through others.
pub open spec fn waits_through(
    graph: WaitGraph,
    from: TransactionId,
    to: TransactionId,
) -> bool {
    exists|path: Seq<TransactionId>| is_wait_path(graph, path, from, to)
}

/// How many transactions of the graph have not been visited.
pub open spec fn unvisited(graph: WaitGraph, visited: Set<TransactionId>) -> nat {
    graph.dom().difference(visited).len()
}

pub proof fn lemma_visit_shrinks(graph: WaitGraph, visited: Set<TransactionId>, txn: TransactionId)
    requires
        graph.dom().finite(),
        graph.dom().contains(txn),
        !visited.contains(txn),
    ensures
        unvisited(graph, visited.insert(txn)) < unvisited(graph, visited),
{
    assert(graph.dom().difference(visited.insert(txn)) =~= graph.dom().difference(visited).remove(
        txn,
    ));
}

proof fn lemma_more_visited(graph: WaitGraph, a: Set<TransactionId>, b: Set<TransactionId>)
    requires
        graph.dom().finite(),
        a.subset_of(b),
    ensures
        unvisited(graph, b) <= unvisited(graph, a),
{
    vstd::set_lib::lemma_len_subset(graph.dom().difference(b), graph.dom().difference(a));
}

/// Depth-first search from one transaction, in ascending order of the transactions waited
/// for: the path that is found first, and all transactions visited until then.
pub open spec fn search(
    graph: WaitGraph,
    current: TransactionId,
    target: TransactionId,
    visited: Set<TransactionId>,
) -> (Option<Seq<TransactionId>>, Set<TransactionId>)
    decreases unvisited(graph, visited), 0nat,
{
    if current == target {
        (Some(seq![current]), visited)
    } else if visited.contains(current) {
        (None, visited)
    } else if !graph.dom().finite() || !graph.dom().contains(current) {
        (None, visited.insert(current))
    } else {
        proof {
            lemma_visit_shrinks(graph, visited, current);
        }
        let (found, seen) = search_each(
            graph,
            sorted::<TransactionId>(graph[current]),
            target,
            visited.insert(current),
        );
        match found {
            Some(path) => (Some(seq![current] + path), seen),
            None => (None, seen),
        }
    }
}

/// The same search from each transaction of a list in turn, until a path is found.
pub open spec fn search_each(
    graph: WaitGraph,
    list: Seq<TransactionId>,
    target: TransactionId,
    visited: Set<TransactionId>,
) -> (Option<Seq<TransactionId>>, Set<TransactionId>)
    decreases unvisited(graph, visited), list.len() + 1,
{
    if list.len() == 0 {
        (None, visited)
    } else {
        let (found, seen) = search(graph, list[0], target, visited);
        if found is Some || unvisited(graph, seen) > unvisited(graph, visited) {
            (found, seen)
        } else {
            search_each(graph, list.drop_first(), target, seen)
        }
    }
}

/// The chain of waits that the search finds from one transaction to another, if any.
pub open spec fn wait_chain(
    graph: WaitGraph,
    from: TransactionId,
    to: TransactionId,
) -> Option<Seq<TransactionId>> {
    search(graph, from, to, Set::empty()).0
}

/// Whether everything visited since `before` is not the target and has had all that it
/// waits for visited.
spec fn closed_since(
    graph: WaitGraph,
    before: Set<TransactionId>,
    after: Set<TransactionId>,
    target: TransactionId,
) -> bool {
    forall|t: TransactionId| #[trigger]
        after.contains(t) && !before.contains(t) ==> t != target && waits_of(graph, t).subset_of(
            after,
        )
}

proof fn lemma_search(
    graph: WaitGraph,
    current: TransactionId,
    target: TransactionId,
    visited: Set<TransactionId>,
)
    requires
        graph.dom().finite(),
        forall|t: TransactionId| #[trigger] graph.dom().contains(t) ==> sorted_ok(graph[t]),
    ensures
        visited.subset_of(search(graph, current, target, visited).1),
        unvisited(graph, search(graph, current, target, visited).1) <= unvisited(graph, visited),
        match search(graph, current, target, visited).0 {
            Some(path) => is_wait_path(graph, path, current, target),
            None => {
                let seen = search(graph, current, target, visited).1;
                seen.contains(current) && closed_since(graph, visited, seen, target)
            },
        },
    decreases unvisited(graph, visited), 0nat,
{
    if current == target {
        assert(is_wait_path(graph, seq![current], current, target));
    } else if visited.contains(current) {
    } else if !graph.dom().contains(current) {
        lemma_more_visited(graph, visited, visited.insert(current));
    } else {
        lemma_visit_shrinks(graph, visited, current);
        let list = sorted::<TransactionId>(graph[current]);
        let started = visited.insert(current);
        lemma_search_each(graph, list, target, started);
        let (found, seen) = search_each(graph, list, target, started);
        assert(sorted_ok(graph[current]));
        match found {
            Some(path) => {
                let whole = seq![current] + path;
                assert(list.to_set().contains(path[0]));
                assert forall|i: int| 0 <= i < whole.len() - 1 implies #[trigger] waits_of(
                    graph,
                    whole[i],
                ).contains(whole[i + 1]) by {
                    if i > 0 {
                        assert(whole[i] == path[i - 1] && whole[i + 1] == path[i]);
                        assert(waits_of(graph, path[i - 1]).contains(path[i - 1 + 1]));
                    } else {
                        assert(whole[1] == path[0]);
                    }
                }
                assert(whole.last() == path.last());
            },
            None => {
                assert forall|t: TransactionId| #[trigger]
                    seen.contains(t) && !visited.contains(t) implies t != target && waits_of(
                    graph,
                    t,
                ).subset_of(seen) by {
                    if t == current {
                        assert forall|u: TransactionId| waits_of(graph, t).contains(
                            u,
                        ) implies seen.contains(u) by {
                            assert(list.to_set().contains(u));
                            let i = list.index_of(u);
                            assert(list[i] == u);
                        }
                    } else {
                        assert(!started.contains(t));
                    }
                }
            },
        }
    }
}

/// Whether a set of transactions has an ascending order.
pub open spec fn sorted_ok(s: Set<TransactionId>) -> bool {
    ascending::<TransactionId>(sorted::<TransactionId>(s)) && sorted::<TransactionId>(s).to_set()
        == s
}

proof fn lemma_search_each(
    graph: WaitGraph,
    list: Seq<TransactionId>,
    target: TransactionId,
    visited: Set<TransactionId>,
)
    requires
        graph.dom().finite(),
        forall|t: TransactionId| #[trigger] graph.dom().contains(t) ==> sorted_ok(graph[t]),
    ensures
        visited.subset_of(search_each(graph, list, target, visited).1),
        unvisited(graph, search_each(graph, list, target, visited).1) <= unvisited(graph, visited),
        match search_each(graph, list, target, visited).0 {
            Some(path) => path.len() > 0 && list.contains(path[0]) && is_wait_path(
                graph,
                path,
                path[0],
                target,
            ),
            None => {
                let seen = search_each(graph, list, target, visited).1;
                &&& forall|i: int| 0 <= i < list.len() ==> seen.contains(#[trigger] list[i])
                &&& closed_since(graph, visited, seen, target)
            },
        },
    decreases unvisited(graph, visited), list.len() + 1,
{
    if list.len() > 0 {
        lemma_search(graph, list[0], target, visited);
        let (found, seen) = search(graph, list[0], target, visited);
        if found is None {
            let rest = list.drop_first();
            lemma_search_each(graph, rest, target, seen);
            let (later, all) = search_each(graph, rest, target, seen);
            match later {
                Some(path) => {
                    let i = rest.index_of(path[0]);
                    assert(list[i + 1] == path[0]);
                },
                None => {
                    assert forall|i: int| 0 <= i < list.len() implies all.contains(
                        #[trigger] list[i],
                    ) by {
                        if i > 0 {
                            assert(rest[i - 1] == list[i]);
                        }
                    }
                    assert forall|t: TransactionId| #[trigger]
                        all.contains(t) && !visited.contains(t) implies t != target && waits_of(
                        graph,
                        t,
                    ).subset_of(all) by {
                        if seen.contains(t) {
                            assert(waits_of(graph, t).subset_of(seen));
                        }
                    }
                },
            }
        }
    }
}

/// The search is sound and complete: it finds a chain of waits exactly where one
/// transaction waits for the other, directly or through others, and what it finds is one.
pub proof fn law_wait_chain_finds_waits(
    graph: WaitGraph,
    from: TransactionId,
    to: TransactionId,
)
    requires
        graph.dom().finite(),
        forall|t: TransactionId| #[trigger] graph.dom().contains(t) ==> sorted_ok(graph[t]),
    ensures
        wait_chain(graph, from, to) is Some <==> waits_through(graph, from, to),
        match wait_chain(graph, from, to) {
            Some(path) => is_wait_path(graph, path, from, to),
            None => true,
        },
{
    lemma_search(graph, from, to, Set::empty());
    let (found, seen) = search(graph, from, to, Set::empty());
    if found is None && waits_through(graph, from, to) {
        let path = choose|path: Seq<TransactionId>| is_wait_path(graph, path, from, to);
        lemma_path_stays(graph, path, from, to, seen, path.len() - 1);
    }
}

proof fn lemma_path_stays(
    graph: WaitGraph,
    path: Seq<TransactionId>,
    from: TransactionId,
    to: TransactionId,
    seen: Set<TransactionId>,
    i: int,
)
    requires
        is_wait_path(graph, path, from, to),
        0 <= i < path.len(),
        seen.contains(from),
        closed_since(graph, Set::empty(), seen, to),
    ensures
        seen.contains(path[i]),
        path[i] != to,
    decreases i,
{
    if i > 0 {
        lemma_path_stays(graph, path, from, to, seen, i - 1);
        assert(waits_of(graph, path[i - 1]).contains(path[i - 1 + 1]));
        assert(waits_of(graph, path[i - 1]).subset_of(seen));
    }
}

/// A graph that is kept in ordered sets can be walked in order.
pub fn graph_is_ordered(graph: &OrdMap<TransactionId, OrdSet<TransactionId>>)
    ensures
        graph@.dom().finite(),
        forall|t: TransactionId| #[trigger] graph@.dom().contains(t) ==> sorted_ok(graph@[t]),
{
    let n: usize = graph.len();
    let mut i: usize = 0;
    let ghost keys = graph.keys();
    while i < n
        invariant
            i <= n == keys.len(),
            keys == graph.keys(),
            forall|j: int| 0 <= j < i ==> sorted_ok(graph@[#[trigger] keys[j]]),
        decreases n - i,
    {
        let set = graph.value_at(i);
        let _ = set.len();
        i = i + 1;
    }
    assert forall|t: TransactionId| #[trigger] graph@.dom().contains(t) implies sorted_ok(
        graph@[t],
    ) by {
        assert(keys.contains(t));
        let j = keys.index_of(t);
        assert(keys[j] == t);
    }
}

/// Searches for a chain of waits from `current` to `target` among what is not visited yet.
pub fn wait_path_with_visited(
    graph: &OrdMap<TransactionId, OrdSet<TransactionId>>,
    current: TransactionId,
    target: TransactionId,
    visited: &mut OrdSet<TransactionId>,
) -> (r: Option<Vec<TransactionId>>)
    requires
        graph@.dom().finite(),
        forall|t: TransactionId| #[trigger] graph@.dom().contains(t) ==> sorted_ok(graph@[t]),
    ensures
        final(visited)@ == search(graph@, current, target, old(visited)@).1,
        match r {
            Some(path) => search(graph@, current, target, old(visited)@).0 == Some(path@),
            None => search(graph@, current, target, old(visited)@).0 is None,
        },
    decreases unvisited(graph@, old(visited)@),
{
    if current == target {
        let mut path: Vec<TransactionId> = Vec::new();
        path.push(current);
        assert(path@ =~= seq![current]);
        return Some(path);
    }
    let fresh = visited.insert(current);
    if !fresh {
        assert(visited@ =~= old(visited)@);
        return None;
    }
    match graph.get(&current) {
        None => None,
        Some(waits) => {
            let n: usize = waits.len();
            let mut i: usize = 0;
            let ghost list = waits.keys();
            let ghost started = visited@;
            proof {
                lemma_visit_shrinks(graph@, old(visited)@, current);
                lemma_more_visited(graph@, started, started);
                assert(list.skip(0) =~= list);
            }
            while i < n
                invariant
                    i <= n == list.len(),
                    list == waits.keys(),
                    graph@.dom().finite(),
                    forall|t: TransactionId| #[trigger]
                        graph@.dom().contains(t) ==> sorted_ok(graph@[t]),
                    search_each(graph@, list.skip(i as int), target, visited@) == search_each(
                        graph@,
                        list,
                        target,
                        started,
                    ),
                    unvisited(graph@, visited@) < unvisited(graph@, old(visited)@),
                    started == old(visited)@.insert(current),
                    !old(visited)@.contains(current),
                    current != target,
                    graph@.dom().contains(current),
                    list == sorted::<TransactionId>(graph@[current]),
                decreases n - i,
            {
                let next: TransactionId = *waits.item_at(i);
                let ghost before = visited@;
                let ghost tail = list.skip(i as int);
                proof {
                    assert(tail[0] == next);
                    assert(tail.drop_first() =~= list.skip(i + 1));
                    lemma_search(graph@, next, target, before);
                }
                let found = wait_path_with_visited(graph, next, target, visited);
                if let Some(path) = found {
                    let mut path = path;
                    let ghost inner = path@;
                    path.insert(0, current);
                    assert(path@ =~= seq![current] + inner);
                    return Some(path);
                }
                i = i + 1;
            }
            assert(list.skip(n as int).len() == 0);
            None
        },
    }
}

/// The chain of waits from one transaction to another, if any.
pub fn wait_path(
    graph: &OrdMap<TransactionId, OrdSet<TransactionId>>,
    current: TransactionId,
    target: TransactionId,
) -> (r: Option<Vec<TransactionId>>)
    ensures
        match r {
            Some(path) => wait_chain(graph@, current, target) == Some(path@) && is_wait_path(
                graph@,
                path@,
                current,
                target,
            ),
            None => wait_chain(graph@, current, target) is None,
        },
        r is Some <==> waits_through(graph@, current, target),
{
    graph_is_ordered(graph);
    let mut visited: OrdSet<TransactionId> = OrdSet::new();
    proof {
        law_wait_chain_finds_waits(graph@, current, target);
    }
    wait_path_with_visited(graph, current, target, &mut visited)
}

/// Whether one transaction waits for another, directly or through others.
pub fn has_wait_path(
    graph: &OrdMap<TransactionId, OrdSet<TransactionId>>,
    current: TransactionId,
    target: TransactionId,
) -> (r: bool)
    ensures
        r == waits_through(graph@, current, target),
        r == (wait_chain(graph@, current, target) is Some),
{
    wait_path(graph, current, target).is_some()
}

} // verus!

//! The order in which a depth-first search finishes its nodes.

use vstd::prelude::*;

use crate::csr::{leaving, Edge};

verus! {

/// What a search has seen, and what it has finished, in that order.
pub struct Tour {
    pub seen: Set<int>,
    pub done: Seq<int>,
}

/// A search that has just come to `u`.
pub open spec fn enter(st: Tour, u: int) -> Tour {
    Tour { seen: st.seen.insert(u), done: st.done }
}

/// Comes to `u`: where it has not been seen, its edges are followed one after the
/// other, and then it is finished. At most `room` more nodes are nested in it.
pub open spec fn tour(edges: Seq<Edge>, st: Tour, u: int, room: nat) -> Tour
    decreases room, 1int, 0int,
{
    if st.seen.contains(u) {
        st
    } else {
        let walked = tour_row(edges, edges.filter(leaving(u)), enter(st, u), room);
        Tour { seen: walked.seen, done: walked.done.push(u) }
    }
}

/// Comes to the targets of `row` in turn.
pub open spec fn tour_row(edges: Seq<Edge>, row: Seq<Edge>, st: Tour, room: nat) -> Tour
    decreases room, 0int, row.len(),
{
    if row.len() == 0 || room == 0 {
        st
    } else {
        tour(
            edges,
            tour_row(edges, row.drop_last(), st, room),
            row.last().dst,
            (room - 1) as nat,
        )
    }
}

/// Comes to the nodes from 0 up to `m` in turn.
pub open spec fn tour_all(edges: Seq<Edge>, n: nat, m: nat) -> Tour
    decreases m,
{
    if m == 0 {
        Tour { seen: Set::empty(), done: Seq::empty() }
    } else {
        tour(edges, tour_all(edges, n, (m - 1) as nat), m - 1, n)
    }
}

/// The nodes in the order in which a depth-first search from node 0 up finishes
/// them.
pub open spec fn finish_order(edges: Seq<Edge>, n: nat) -> Seq<int> {
    tour_all(edges, n, n).done
}

} // verus!

//! The container and solver interfaces, and their implementations by the
//! library's types. The interfaces ask only that each method keeps its
//! implementer consistent; each implementation states its type's full contract.
use vstd::prelude::*;
use crate::collection::{Collection, Disposable};
use crate::circular_stack::CircularStack;
use crate::circular_queue::CircularQueue;
use crate::linked_deque::LinkedDeque;
use crate::priority_queue::PriorityQueue;
use crate::history::{History, Equivalence};
use crate::dinic::{Dinic, DinicEdge, DinicError};
use crate::isap::{Isap, IsapEdge, IsapError};
use crate::mcmf::{Mcmf, McmfEdge, McmfError, McmfResult};
use crate::error::{StackError, QueueError};
use crate::flow::{ArcView, flows_fit, net_out, caps_of, cut_edges, is_max_flow, reach_side, same_network, residual_reach, cuts_at_least};
use crate::pricing::{least_cost, has_feasible_prices};
use crate::mcmf::{costs_fit, mcmf_arcs, flow_cost, reached_cut, mcmf_in_range};
use crate::ring::{keep_last, keep_first, filter_kept};
use crate::circular_stack::index_in;
use crate::order::{le, total_order, comparisons_specified};
use crate::history::{clamp_int, push_outcome, push_answered, rearranged_present, indexed_answers};
use crate::dinic::arcs_of;
use crate::priority_queue::{sift_up, sift_down};
use crate::isap::isap_arcs;

verus! {

/// A last-in, first-out container.
pub trait StackLike<T>: Collection<Item = T> {
    fn top(&self) -> (r: Option<&T>)
        requires
            self.well_formed(),
    ;

    fn pop(&mut self) -> (r: Option<T>)
        requires
            old(self).well_formed(),
        ensures
            final(self).well_formed(),
    ;

    fn push(&mut self, element: T)
        requires
            old(self).well_formed(),
        ensures
            final(self).well_formed(),
    ;

    fn pushes(&mut self, elements: Vec<T>)
        requires
            old(self).well_formed(),
        ensures
            final(self).well_formed(),
    ;

    fn replace_top(&mut self, new_top: T) -> (r: Option<T>)
        requires
            old(self).well_formed(),
        ensures
            final(self).well_formed(),
    ;
}

/// A bounded stack over a ring buffer.
pub trait CircularStackLike<T>: StackLike<T> {
    type Error;

    fn capacity(&self) -> (r: usize)
        requires
            self.well_formed(),
    ;

    fn at(&self, index: isize) -> (r: Option<&T>)
        requires
            self.well_formed(),
    ;

    fn update(&mut self, index: isize, element: T) -> (r: bool)
        requires
            old(self).well_formed(),
        ensures
            final(self).well_formed(),
    ;

    fn resize(&mut self, new_capacity: usize) -> (r: Result<(), Self::Error>)
        requires
            old(self).well_formed(),
        ensures
            final(self).well_formed(),
    ;

    fn rearrange(&mut self)
        requires
            old(self).well_formed(),
        ensures
            final(self).well_formed(),
    ;
}

/// A first-in, first-out container.
pub trait QueueLike<T>: Collection<Item = T> {
    fn front(&self) -> (r: Option<&T>)
        requires
            self.well_formed(),
    ;

    fn enqueue(&mut self, element: T)
        requires
            old(self).well_formed(),
        ensures
            final(self).well_formed(),
    ;

    fn dequeue(&mut self) -> (r: Option<T>)
        requires
            old(self).well_formed(),
        ensures
            final(self).well_formed(),
    ;

    fn enqueues(&mut self, elements: Vec<T>)
        requires
            old(self).well_formed(),
        ensures
            final(self).well_formed(),
    ;

    fn replace_front(&mut self, new_back: T) -> (r: Option<T>)
        requires
            old(self).well_formed(),
        ensures
            final(self).well_formed(),
    ;
}

/// A queue that also works at its back.
pub trait DequeLike<T>: QueueLike<T> {
    fn back(&self) -> (r: Option<&T>)
        requires
            self.well_formed(),
    ;

    fn enqueue_front(&mut self, element: T)
        requires
            old(self).well_formed(),
        ensures
            final(self).well_formed(),
    ;

    fn dequeue_back(&mut self) -> (r: Option<T>)
        requires
            old(self).well_formed(),
        ensures
            final(self).well_formed(),
    ;

    fn enqueues_front(&mut self, elements: Vec<T>)
        requires
            old(self).well_formed(),
        ensures
            final(self).well_formed(),
    ;

    fn replace_back(&mut self, new_front: T) -> (r: Option<T>)
        requires
            old(self).well_formed(),
        ensures
            final(self).well_formed(),
    ;
}

/// A bounded deque over a ring buffer.
pub trait CircularQueueLike<T>: DequeLike<T> {
    type Error;

    fn capacity(&self) -> (r: usize)
        requires
            self.well_formed(),
    ;

    fn at(&self, index: isize) -> (r: Option<&T>)
        requires
            self.well_formed(),
    ;

    fn resize(&mut self, new_capacity: usize) -> (r: Result<(), Self::Error>)
        requires
            old(self).well_formed(),
        ensures
            final(self).well_formed(),
    ;

    fn rearrange(&mut self)
        requires
            old(self).well_formed(),
        ensures
            final(self).well_formed(),
    ;
}

/// A queue that hands out its least item first.
pub trait PriorityQueueLike<T>: QueueLike<T> {
}

/// A bounded, navigable history of states.
pub trait HistoryLike<T>: Sized {
    /// The history's internal state is consistent.
    spec fn consistent(&self) -> bool;

    fn name(&self) -> &str;

    fn capacity(&self) -> (r: usize)
        requires
            self.consistent(),
    ;

    fn size(&self) -> (r: usize)
        requires
            self.consistent(),
    ;

    fn count<F: Fn(&T) -> bool>(&self, filter: F) -> (r: usize)
        requires
            self.consistent(),
            forall|x: &T| #[trigger] filter.requires((x,)),
    ;

    fn top(&self) -> (r: Option<&T>)
        requires
            self.consistent(),
    ;

    fn present(&self) -> (r: (Option<&T>, isize))
        requires
            self.consistent(),
    ;

    fn is_bot(&self) -> (r: bool)
        requires
            self.consistent(),
    ;

    fn is_top(&self) -> (r: bool)
        requires
            self.consistent(),
    ;

    fn backward(&mut self) -> (r: (Option<&T>, bool))
        requires
            old(self).consistent(),
    ;

    fn backward_by(&mut self, step: isize) -> (r: (Option<&T>, bool))
        requires
            old(self).consistent(),
    ;

    fn forward(&mut self) -> (r: (Option<&T>, bool))
        requires
            old(self).consistent(),
    ;

    fn forward_by(&mut self, step: isize) -> (r: (Option<&T>, bool))
        requires
            old(self).consistent(),
    ;

    fn go(&mut self, index: isize) -> (r: Option<&T>)
        requires
            old(self).consistent(),
    ;

    fn push(&mut self, element: T) -> (r: &mut Self)
        requires
            old(self).consistent(),
        ensures
            r.consistent(),
            *final(self) == *final(r),
    ;

    fn clear(&mut self)
        requires
            old(self).consistent(),
        ensures
            final(self).consistent(),
    ;

    fn rearrange<F: Fn(&T, usize) -> bool>(&mut self, filter: F) -> (r: &mut Self)
        requires
            old(self).consistent(),
            forall|x: &T, i: usize| #[trigger] filter.requires((x, i)),
        ensures
            r.consistent(),
            *final(self) == *final(r),
    ;

    fn update_top(&mut self, element: T)
        requires
            old(self).consistent(),
        ensures
            final(self).consistent(),
    ;

    fn fork(&self, name: &str) -> (r: Self) where T: Clone
        requires
            self.consistent(),
        ensures
            r.consistent(),
    ;
}

/// A maximum-flow solver.
pub trait DinicLike {
    /// The solver's internal state is consistent.
    spec fn consistent(&self) -> bool;

    /// The network can take another edge.
    spec fn edge_room(&self) -> bool;

    /// Node count of the network (0 before initialization).
    spec fn node_count(&self) -> nat;

    /// The capacities fit the solver's arithmetic.
    spec fn solvable(&self) -> bool;

    fn init(&mut self, source: usize, sink: usize, n: usize)
        requires
            old(self).consistent(),
            0 < n <= isize::MAX,
            source < n,
            sink < n,
            source != sink,
        ensures
            final(self).consistent(),
    ;

    fn try_init(&mut self, source: usize, sink: usize, n: usize) -> (r: Result<(), DinicError>)
        requires
            old(self).consistent(),
            n <= isize::MAX,
        ensures
            final(self).consistent(),
    ;

    fn add_edge(&mut self, from: usize, to: usize, cap: i64)
        requires
            old(self).consistent(),
            old(self).edge_room(),
            from < old(self).node_count(),
            to < old(self).node_count(),
            cap >= 0,
        ensures
            final(self).consistent(),
    ;

    fn try_add_edge(&mut self, from: usize, to: usize, cap: i64) -> (r: Result<(), DinicError>)
        requires
            old(self).consistent(),
            old(self).edge_room(),
        ensures
            final(self).consistent(),
    ;

    fn maxflow(&mut self) -> (r: i64)
        requires
            old(self).consistent(),
            old(self).solvable(),
        ensures
            final(self).consistent(),
    ;

    fn mincut(&mut self) -> (r: Vec<DinicEdge>)
        requires
            old(self).consistent(),
            old(self).solvable(),
        ensures
            final(self).consistent(),
    ;
}

/// A maximum-flow solver by improved shortest augmenting paths.
pub trait IsapLike {
    /// The solver's internal state is consistent.
    spec fn consistent(&self) -> bool;

    /// The network can take another edge.
    spec fn edge_room(&self) -> bool;

    /// Node count of the network (0 before initialization).
    spec fn node_count(&self) -> nat;

    /// The capacities fit the solver's arithmetic.
    spec fn solvable(&self) -> bool;

    fn init(&mut self, source: usize, sink: usize, n: usize)
        requires
            old(self).consistent(),
            0 < n < usize::MAX,
            source < n,
            sink < n,
            source != sink,
        ensures
            final(self).consistent(),
    ;

    fn try_init(&mut self, source: usize, sink: usize, n: usize) -> (r: Result<(), IsapError>)
        requires
            old(self).consistent(),
            n < usize::MAX,
        ensures
            final(self).consistent(),
    ;

    fn add_edge(&mut self, from: usize, to: usize, cap: i64)
        requires
            old(self).consistent(),
            old(self).edge_room(),
            from < old(self).node_count(),
            to < old(self).node_count(),
            cap >= 0,
        ensures
            final(self).consistent(),
    ;

    fn try_add_edge(&mut self, from: usize, to: usize, cap: i64) -> (r: Result<(), IsapError>)
        requires
            old(self).consistent(),
            old(self).edge_room(),
        ensures
            final(self).consistent(),
    ;

    fn maxflow(&mut self) -> (r: i64)
        requires
            old(self).consistent(),
            old(self).solvable(),
        ensures
            final(self).consistent(),
    ;

    fn mincut(&mut self) -> (r: Vec<IsapEdge>)
        requires
            old(self).consistent(),
            old(self).solvable(),
        ensures
            final(self).consistent(),
    ;
}

/// A minimum-cost maximum-flow solver.
pub trait McmfLike {
    /// The solver's internal state is consistent.
    spec fn consistent(&self) -> bool;

    /// The network can take another edge.
    spec fn edge_room(&self) -> bool;

    /// Node count of the network (0 before initialization).
    spec fn node_count(&self) -> nat;

    /// The capacities and costs fit the solver's arithmetic.
    spec fn solvable(&self) -> bool;

    fn init(&mut self, source: usize, sink: usize, n: usize)
        requires
            old(self).consistent(),
            0 < n < usize::MAX,
            source < n,
            sink < n,
            source != sink,
        ensures
            final(self).consistent(),
    ;

    fn try_init(&mut self, source: usize, sink: usize, n: usize) -> (r: Result<(), McmfError>)
        requires
            old(self).consistent(),
            n < usize::MAX,
        ensures
            final(self).consistent(),
    ;

    fn add_edge(&mut self, from: usize, to: usize, cap: i64, cost: i64)
        requires
            old(self).consistent(),
            old(self).edge_room(),
            from < old(self).node_count(),
            to < old(self).node_count(),
            cap >= 0,
            cost > i64::MIN,
        ensures
            final(self).consistent(),
    ;

    fn try_add_edge(&mut self, from: usize, to: usize, cap: i64, cost: i64) -> (r: Result<(), McmfError>)
        requires
            old(self).consistent(),
            old(self).edge_room(),
            cost > i64::MIN,
        ensures
            final(self).consistent(),
    ;

    fn min_cost_max_flow(&mut self) -> (r: McmfResult)
        requires
            old(self).consistent(),
            old(self).solvable(),
        ensures
            final(self).consistent(),
    ;

    fn mincut(&mut self) -> (r: Vec<McmfEdge>)
        requires
            old(self).consistent(),
            old(self).solvable(),
        ensures
            final(self).consistent(),
    ;
}

impl<T> StackLike<T> for CircularStack<T> {
    fn top(&self) -> (r: Option<&T>)
        ensures
            self@.len() == 0 ==> r is None,
            self@.len() > 0 ==> r == Some(&self@.last()),
    {
        CircularStack::top(self)
    }

    fn pop(&mut self) -> (r: Option<T>)
        ensures
            final(self).wf(),
            old(self)@.len() == 0 ==> r is None && final(self)@ == old(self)@,
            old(self)@.len() > 0 ==> r == Some(old(self)@.last()) && final(self)@ == old(
                self,
            )@.drop_last(),
            final(self).spec_capacity() == old(self).spec_capacity(),
            final(self).spec_disposed() == old(self).spec_disposed(),
    {
        CircularStack::pop(self)
    }

    fn push(&mut self, element: T)
        ensures
            final(self).wf(),
            final(self)@ == keep_last(old(self)@.push(element), old(self).spec_capacity()),
            final(self).spec_capacity() == old(self).spec_capacity(),
            final(self).spec_disposed() == old(self).spec_disposed(),
    {
        CircularStack::push(self, element)
    }

    fn pushes(&mut self, elements: Vec<T>)
        ensures
            final(self).wf(),
            final(self)@ == keep_last(old(self)@ + elements@, old(self).spec_capacity()),
            final(self).spec_capacity() == old(self).spec_capacity(),
            final(self).spec_disposed() == old(self).spec_disposed(),
    {
        CircularStack::pushes(self, elements)
    }

    fn replace_top(&mut self, new_top: T) -> (r: Option<T>)
        ensures
            final(self).wf(),
            old(self)@.len() == 0 ==> r is None && final(self)@ == seq![new_top],
            old(self)@.len() > 0 ==> r == Some(old(self)@.last()) && final(self)@ == old(
                self,
            )@.update(old(self)@.len() - 1, new_top),
            final(self).spec_capacity() == old(self).spec_capacity(),
            final(self).spec_disposed() == old(self).spec_disposed(),
    {
        CircularStack::replace_top(self, new_top)
    }
}

impl<T> CircularStackLike<T> for CircularStack<T> {
    type Error = StackError;

    fn capacity(&self) -> (n: usize)
        ensures
            n == self.spec_capacity(),
    {
        CircularStack::capacity(self)
    }

    fn at(&self, index: isize) -> (r: Option<&T>)
        ensures
            !index_in(index, self@.len()) ==> r is None,
            index_in(index, self@.len()) ==> r == Some(&self@[index as int]),
    {
        CircularStack::at(self, index)
    }

    fn update(&mut self, index: isize, element: T) -> (r: bool)
        ensures
            final(self).wf(),
            r == index_in(index, old(self)@.len()),
            r ==> final(self)@ == old(self)@.update(index as int, element),
            !r ==> final(self)@ == old(self)@,
            final(self).spec_capacity() == old(self).spec_capacity(),
            final(self).spec_disposed() == old(self).spec_disposed(),
    {
        CircularStack::update(self, index, element)
    }

    fn resize(&mut self, new_capacity: usize) -> (r: Result<(), StackError>)
        ensures
            final(self).wf(),
            new_capacity == 0 <==> r == Err::<(), StackError>(
                StackError::InvalidCapacity { capacity: new_capacity },
            ),
            new_capacity == 0 ==> final(self)@ == old(self)@ && final(self).spec_capacity()
                == old(self).spec_capacity(),
            r is Ok <==> new_capacity > 0,
            new_capacity > 0 ==> final(self)@ == keep_last(old(self)@, new_capacity as nat)
                && final(self).spec_capacity() == new_capacity,
            final(self).spec_disposed() == old(self).spec_disposed(),
    {
        CircularStack::resize(self, new_capacity)
    }

    fn rearrange(&mut self)
        ensures
            final(self).wf(),
            final(self)@ == old(self)@,
            final(self).spec_capacity() == old(self).spec_capacity(),
            final(self).spec_disposed() == old(self).spec_disposed(),
            final(self).spec_compact(),
    {
        CircularStack::rearrange(self)
    }
}

impl<T> QueueLike<T> for CircularQueue<T> {
    fn front(&self) -> (r: Option<&T>)
        ensures
            self@.len() == 0 ==> r is None,
            self@.len() > 0 ==> r == Some(&self@[0]),
    {
        CircularQueue::front(self)
    }

    fn enqueue(&mut self, element: T)
        ensures
            final(self).wf(),
            final(self)@ == keep_last(old(self)@.push(element), old(self).spec_capacity()),
            final(self).spec_capacity() == old(self).spec_capacity(),
            final(self).spec_disposed() == old(self).spec_disposed(),
    {
        CircularQueue::enqueue(self, element)
    }

    fn dequeue(&mut self) -> (r: Option<T>)
        ensures
            final(self).wf(),
            old(self)@.len() == 0 ==> r is None && final(self)@ == old(self)@,
            old(self)@.len() > 0 ==> r == Some(old(self)@[0]) && final(self)@ == old(
                self,
            )@.drop_first(),
            final(self).spec_capacity() == old(self).spec_capacity(),
            final(self).spec_disposed() == old(self).spec_disposed(),
    {
        CircularQueue::dequeue(self)
    }

    fn enqueues(&mut self, elements: Vec<T>)
        ensures
            final(self).wf(),
            final(self)@ == keep_last(old(self)@ + elements@, old(self).spec_capacity()),
            final(self).spec_capacity() == old(self).spec_capacity(),
            final(self).spec_disposed() == old(self).spec_disposed(),
    {
        CircularQueue::enqueues(self, elements)
    }

    fn replace_front(&mut self, new_back: T) -> (r: Option<T>)
        ensures
            final(self).wf(),
            old(self)@.len() == 0 ==> r is None && final(self)@ == seq![new_back],
            old(self)@.len() > 0 ==> r == Some(old(self)@[0]) && final(self)@ == old(
                self,
            )@.drop_first().push(new_back),
            final(self).spec_capacity() == old(self).spec_capacity(),
            final(self).spec_disposed() == old(self).spec_disposed(),
    {
        CircularQueue::replace_front(self, new_back)
    }
}

impl<T> DequeLike<T> for CircularQueue<T> {
    fn back(&self) -> (r: Option<&T>)
        ensures
            self@.len() == 0 ==> r is None,
            self@.len() > 0 ==> r == Some(&self@.last()),
    {
        CircularQueue::back(self)
    }

    fn enqueue_front(&mut self, element: T)
        ensures
            final(self).wf(),
            final(self)@ == keep_first(seq![element] + old(self)@, old(self).spec_capacity()),
            final(self).spec_capacity() == old(self).spec_capacity(),
            final(self).spec_disposed() == old(self).spec_disposed(),
    {
        CircularQueue::enqueue_front(self, element)
    }

    fn dequeue_back(&mut self) -> (r: Option<T>)
        ensures
            final(self).wf(),
            old(self)@.len() == 0 ==> r is None && final(self)@ == old(self)@,
            old(self)@.len() > 0 ==> r == Some(old(self)@.last()) && final(self)@ == old(
                self,
            )@.drop_last(),
            final(self).spec_capacity() == old(self).spec_capacity(),
            final(self).spec_disposed() == old(self).spec_disposed(),
    {
        CircularQueue::dequeue_back(self)
    }

    fn enqueues_front(&mut self, elements: Vec<T>)
        ensures
            final(self).wf(),
            final(self)@ == keep_first(elements@.reverse() + old(self)@, old(self).spec_capacity()),
            final(self).spec_capacity() == old(self).spec_capacity(),
            final(self).spec_disposed() == old(self).spec_disposed(),
    {
        CircularQueue::enqueues_front(self, elements)
    }

    fn replace_back(&mut self, new_front: T) -> (r: Option<T>)
        ensures
            final(self).wf(),
            old(self)@.len() == 0 ==> r is None && final(self)@ == seq![new_front],
            old(self)@.len() > 0 ==> r == Some(old(self)@.last()) && final(self)@ == seq![new_front]
                + old(self)@.drop_last(),
            final(self).spec_capacity() == old(self).spec_capacity(),
            final(self).spec_disposed() == old(self).spec_disposed(),
    {
        CircularQueue::replace_back(self, new_front)
    }
}

impl<T> CircularQueueLike<T> for CircularQueue<T> {
    type Error = QueueError;

    fn capacity(&self) -> (n: usize)
        ensures
            n == self.spec_capacity(),
    {
        CircularQueue::capacity(self)
    }

    fn at(&self, index: isize) -> (r: Option<&T>)
        ensures
            !index_in(index, self@.len()) ==> r is None,
            index_in(index, self@.len()) ==> r == Some(&self@[index as int]),
    {
        CircularQueue::at(self, index)
    }

    fn resize(&mut self, new_capacity: usize) -> (r: Result<(), QueueError>)
        ensures
            final(self).wf(),
            new_capacity == 0 ==> r == Err::<(), QueueError>(
                QueueError::InvalidCapacity { capacity: new_capacity },
            ),
            new_capacity > 0 && old(self)@.len() > new_capacity ==> r == Err::<(), QueueError>(
                QueueError::InsufficientCapacity {
                    current_size: old(self)@.len() as usize,
                    requested_capacity: new_capacity,
                },
            ),
            r is Ok <==> new_capacity > 0 && old(self)@.len() <= new_capacity,
            r is Ok ==> final(self).spec_capacity() == new_capacity,
            r is Err ==> final(self).spec_capacity() == old(self).spec_capacity(),
            final(self)@ == old(self)@,
            final(self).spec_disposed() == old(self).spec_disposed(),
    {
        CircularQueue::resize(self, new_capacity)
    }

    fn rearrange(&mut self)
        ensures
            final(self).wf(),
            final(self)@ == old(self)@,
            final(self).spec_capacity() == old(self).spec_capacity(),
            final(self).spec_disposed() == old(self).spec_disposed(),
            final(self).spec_compact(),
    {
        CircularQueue::rearrange(self)
    }
}

impl<T> QueueLike<T> for LinkedDeque<T> {
    fn front(&self) -> (r: Option<&T>)
        ensures
            self@.len() == 0 ==> r is None,
            self@.len() > 0 ==> r == Some(&self@[0]),
    {
        LinkedDeque::front(self)
    }

    fn enqueue(&mut self, element: T)
        ensures
            final(self)@ == old(self)@.push(element),
            final(self).spec_disposed() == old(self).spec_disposed(),
    {
        LinkedDeque::enqueue(self, element)
    }

    fn dequeue(&mut self) -> (r: Option<T>)
        ensures
            old(self)@.len() == 0 ==> r is None && final(self)@ == old(self)@,
            old(self)@.len() > 0 ==> r == Some(old(self)@[0]) && final(self)@ == old(self)@.drop_first(),
            final(self).spec_disposed() == old(self).spec_disposed(),
    {
        LinkedDeque::dequeue(self)
    }

    fn enqueues(&mut self, elements: Vec<T>)
        ensures
            final(self)@ == old(self)@ + elements@,
            final(self).spec_disposed() == old(self).spec_disposed(),
    {
        LinkedDeque::enqueues(self, elements)
    }

    fn replace_front(&mut self, new_back: T) -> (r: Option<T>)
        ensures
            old(self)@.len() == 0 ==> r is None && final(self)@ == seq![new_back],
            old(self)@.len() > 0 ==> r == Some(old(self)@[0]) && final(self)@ == old(
                self,
            )@.drop_first().push(new_back),
            final(self).spec_disposed() == old(self).spec_disposed(),
    {
        LinkedDeque::replace_front(self, new_back)
    }
}

impl<T> DequeLike<T> for LinkedDeque<T> {
    fn back(&self) -> (r: Option<&T>)
        ensures
            self@.len() == 0 ==> r is None,
            self@.len() > 0 ==> r == Some(&self@.last()),
    {
        LinkedDeque::back(self)
    }

    fn enqueue_front(&mut self, element: T)
        ensures
            final(self)@ == seq![element] + old(self)@,
            final(self).spec_disposed() == old(self).spec_disposed(),
    {
        LinkedDeque::enqueue_front(self, element)
    }

    fn dequeue_back(&mut self) -> (r: Option<T>)
        ensures
            old(self)@.len() == 0 ==> r is None && final(self)@ == old(self)@,
            old(self)@.len() > 0 ==> r == Some(old(self)@.last()) && final(self)@ == old(self)@.drop_last(),
            final(self).spec_disposed() == old(self).spec_disposed(),
    {
        LinkedDeque::dequeue_back(self)
    }

    fn enqueues_front(&mut self, elements: Vec<T>)
        ensures
            final(self)@ == elements@.reverse() + old(self)@,
            final(self).spec_disposed() == old(self).spec_disposed(),
    {
        LinkedDeque::enqueues_front(self, elements)
    }

    fn replace_back(&mut self, new_front: T) -> (r: Option<T>)
        ensures
            old(self)@.len() == 0 ==> r is None && final(self)@ == seq![new_front],
            old(self)@.len() > 0 ==> r == Some(old(self)@.last()) && final(self)@ == seq![new_front]
                + old(self)@.drop_last(),
            final(self).spec_disposed() == old(self).spec_disposed(),
    {
        LinkedDeque::replace_back(self, new_front)
    }
}

impl<T: Ord> QueueLike<T> for PriorityQueue<T> {
    fn front(&self) -> (r: Option<&T>)
        ensures
            self@.len() == 0 <==> r is None,
            r matches Some(x) ==> self@.contains(*x) && *x == self.spec_items()[0],
            r matches Some(x) ==> (total_order::<T>() ==> forall|y: T| self@.contains(y) ==> le(*x, y)),
    {
        PriorityQueue::front(self)
    }

    fn enqueue(&mut self, element: T)
        ensures
            final(self).wf(),
            final(self)@ == old(self)@.insert(element),
            final(self).spec_disposed() == old(self).spec_disposed(),
            comparisons_specified::<T>() ==> final(self).spec_items() == sift_up(old(self).spec_items().push(element),
                old(self).spec_items().len() as int),
    {
        PriorityQueue::enqueue(self, element)
    }

    fn dequeue(&mut self) -> (r: Option<T>)
        ensures
            final(self).wf(),
            old(self)@.len() == 0 <==> r is None,
            old(self)@.len() == 0 ==> final(self)@ == old(self)@,
            r matches Some(x) ==> old(self)@.contains(x) && final(self)@ == old(self)@.remove(x),
            r matches Some(x) ==> (total_order::<T>() ==> forall|y: T| old(self)@.contains(y) ==> le(x, y)),
            final(self).spec_disposed() == old(self).spec_disposed(),
            r matches Some(x) ==> x == old(self).spec_items()[0],
            comparisons_specified::<T>() && old(self)@.len() > 0 ==> ({
                let s = old(self).spec_items();
                let t = s.update(0, s.last()).drop_last();
                final(self).spec_items() == sift_down(t, t.len() as int, 0)
            }),
    {
        PriorityQueue::dequeue(self)
    }

    fn enqueues(&mut self, elements: Vec<T>)
        ensures
            final(self).wf(),
            final(self)@ == old(self)@.add(elements@.to_multiset()),
            final(self).spec_disposed() == old(self).spec_disposed(),
    {
        PriorityQueue::enqueues(self, elements)
    }

    fn replace_front(&mut self, new_back: T) -> (r: Option<T>)
        ensures
            final(self).wf(),
            old(self)@.len() == 0 <==> r is None,
            old(self)@.len() == 0 ==> final(self)@ == old(self)@.insert(new_back),
            r matches Some(x) ==> old(self)@.contains(x) && final(self)@ == old(self)@.remove(x).insert(
                new_back,
            ),
            r matches Some(x) ==> (total_order::<T>() ==> forall|y: T| old(self)@.contains(y) ==> le(x, y)),
            final(self).spec_disposed() == old(self).spec_disposed(),
            r matches Some(x) ==> x == old(self).spec_items()[0],
            old(self)@.len() == 0 ==> final(self).spec_items() == seq![new_back],
            comparisons_specified::<T>() && old(self)@.len() > 0 ==> final(self).spec_items() == sift_down(
                old(self).spec_items().update(0, new_back), old(self).spec_items().len() as int, 0),
    {
        PriorityQueue::replace_front(self, new_back)
    }
}

impl<T: Ord> PriorityQueueLike<T> for PriorityQueue<T> {
}

impl<T, E: Equivalence<T>> HistoryLike<T> for History<T, E> {
    open spec fn consistent(&self) -> bool {
        self.wf()
    }

    fn name(&self) -> (r: &str)
        ensures
            r@ == self.spec_name(),
    {
        History::name(self)
    }

    fn capacity(&self) -> (n: usize)
        ensures
            n == self.spec_capacity(),
    {
        History::capacity(self)
    }

    fn size(&self) -> (n: usize)
        ensures
            n == self.spec_states().len(),
    {
        History::size(self)
    }

    fn count<F: Fn(&T) -> bool>(&self, filter: F) -> (n: usize)
        ensures
            exists|keep: Seq<bool>|
                crate::ring::predicate_answers(filter, self.spec_states(), keep) && n == filter_kept(
                    self.spec_states(),
                    keep,
                ).len(),
    {
        History::count(self, filter)
    }

    fn top(&self) -> (r: Option<&T>)
        ensures
            self.spec_states().len() == 0 ==> r is None,
            self.spec_states().len() > 0 ==> r == Some(&self.spec_states().last()),
    {
        History::top(self)
    }

    fn present(&self) -> (r: (Option<&T>, isize))
        ensures
            r.1 == self.spec_present(),
            self.spec_states().len() == 0 ==> r.0 is None,
            self.spec_states().len() > 0 ==> r.0 == Some(&self.spec_states()[self.spec_present()]),
    {
        History::present(self)
    }

    fn is_bot(&self) -> (b: bool)
        ensures
            b == (self.spec_states().len() == 0 || self.spec_present() == 0),
    {
        History::is_bot(self)
    }

    fn is_top(&self) -> (b: bool)
        ensures
            b == (self.spec_states().len() == 0 || self.spec_present() + 1 == self.spec_states().len()),
    {
        History::is_top(self)
    }

    fn backward(&mut self) -> (r: (Option<&T>, bool))
        ensures
            final(self).wf(),
            final(self).spec_states() == old(self).spec_states(),
            final(self).spec_capacity() == old(self).spec_capacity(),
            final(self).spec_name() == old(self).spec_name(),
            final(self).spec_equals() == old(self).spec_equals(),
            old(self).spec_states().len() == 0 ==> r == (None::<&T>, true) && final(self).spec_present()
                == old(self).spec_present(),
            old(self).spec_states().len() > 0 ==> {
                &&& final(self).spec_present() == clamp_int(
                    old(self).spec_present() - 1,
                    0,
                    old(self).spec_states().len() - 1,
                )
                &&& r.0 == Some(&final(self).spec_states()[final(self).spec_present()])
                &&& r.1 == (final(self).spec_present() < 1)
            },
    {
        History::backward(self)
    }

    fn backward_by(&mut self, step: isize) -> (r: (Option<&T>, bool))
        ensures
            final(self).wf(),
            final(self).spec_states() == old(self).spec_states(),
            final(self).spec_capacity() == old(self).spec_capacity(),
            final(self).spec_name() == old(self).spec_name(),
            final(self).spec_equals() == old(self).spec_equals(),
            old(self).spec_states().len() == 0 ==> r == (None::<&T>, true) && final(self).spec_present()
                == old(self).spec_present(),
            old(self).spec_states().len() > 0 ==> {
                &&& final(self).spec_present() == clamp_int(
                    old(self).spec_present() - step,
                    0,
                    old(self).spec_states().len() - 1,
                )
                &&& r.0 == Some(&final(self).spec_states()[final(self).spec_present()])
                &&& r.1 == (final(self).spec_present() < 1)
            },
    {
        History::backward_by(self, step)
    }

    fn forward(&mut self) -> (r: (Option<&T>, bool))
        ensures
            final(self).wf(),
            final(self).spec_states() == old(self).spec_states(),
            final(self).spec_capacity() == old(self).spec_capacity(),
            final(self).spec_name() == old(self).spec_name(),
            final(self).spec_equals() == old(self).spec_equals(),
            old(self).spec_states().len() == 0 ==> r == (None::<&T>, true) && final(self).spec_present()
                == old(self).spec_present(),
            old(self).spec_states().len() > 0 ==> {
                &&& final(self).spec_present() == clamp_int(
                    old(self).spec_present() + 1,
                    0,
                    old(self).spec_states().len() - 1,
                )
                &&& r.0 == Some(&final(self).spec_states()[final(self).spec_present()])
                &&& r.1 == (final(self).spec_present() + 1 == final(self).spec_states().len())
            },
    {
        History::forward(self)
    }

    fn forward_by(&mut self, step: isize) -> (r: (Option<&T>, bool))
        ensures
            final(self).wf(),
            final(self).spec_states() == old(self).spec_states(),
            final(self).spec_capacity() == old(self).spec_capacity(),
            final(self).spec_name() == old(self).spec_name(),
            final(self).spec_equals() == old(self).spec_equals(),
            old(self).spec_states().len() == 0 ==> r == (None::<&T>, true) && final(self).spec_present()
                == old(self).spec_present(),
            old(self).spec_states().len() > 0 ==> {
                &&& final(self).spec_present() == clamp_int(
                    old(self).spec_present() + step,
                    0,
                    old(self).spec_states().len() - 1,
                )
                &&& r.0 == Some(&final(self).spec_states()[final(self).spec_present()])
                &&& r.1 == (final(self).spec_present() + 1 == final(self).spec_states().len())
            },
    {
        History::forward_by(self, step)
    }

    fn go(&mut self, index: isize) -> (r: Option<&T>)
        ensures
            final(self).wf(),
            final(self).spec_states() == old(self).spec_states(),
            final(self).spec_capacity() == old(self).spec_capacity(),
            final(self).spec_name() == old(self).spec_name(),
            final(self).spec_equals() == old(self).spec_equals(),
            old(self).spec_states().len() == 0 ==> r is None && final(self).spec_present() == old(
                self,
            ).spec_present(),
            old(self).spec_states().len() > 0 ==> final(self).spec_present() == clamp_int(
                index as int,
                0,
                old(self).spec_states().len() - 1,
            ) && r == Some(&final(self).spec_states()[final(self).spec_present()]),
    {
        History::go(self, index)
    }

    fn push(&mut self, element: T) -> (r: &mut Self)
        ensures
            r.wf(),
            *final(self) == *final(r),
            r.spec_capacity() == old(self).spec_capacity(),
            r.spec_name() == old(self).spec_name(),
            r.spec_equals() == old(self).spec_equals(),
            exists|eq_cur: bool, eq_next: bool|
                push_answered(
                    old(self).spec_equals(),
                    old(self).spec_states(),
                    old(self).spec_present(),
                    element,
                    eq_cur,
                    eq_next,
                ) && push_outcome(
                    old(self).spec_states(),
                    old(self).spec_present(),
                    element,
                    eq_cur,
                    eq_next,
                    old(self).spec_capacity(),
                ) == (r.spec_states(), r.spec_present()),
    {
        History::push(self, element)
    }

    fn clear(&mut self)
        ensures
            final(self).wf(),
            final(self).spec_capacity() == old(self).spec_capacity(),
            final(self).spec_name() == old(self).spec_name(),
            final(self).spec_equals() == old(self).spec_equals(),
            old(self).spec_states().len() == 0 ==> final(self).spec_states() == Seq::<T>::empty()
                && final(self).spec_present() == -1,
            old(self).spec_states().len() > 0 ==> final(self).spec_states() == seq![
                old(self).spec_states().last(),
            ] && final(self).spec_present() == 0,
    {
        History::clear(self)
    }

    fn rearrange<F: Fn(&T, usize) -> bool>(&mut self, filter: F) -> (r: &mut Self)
        ensures
            r.wf(),
            *final(self) == *final(r),
            r.spec_capacity() == old(self).spec_capacity(),
            r.spec_name() == old(self).spec_name(),
            r.spec_equals() == old(self).spec_equals(),
            exists|keep: Seq<bool>|
                {
                    &&& indexed_answers(filter, old(self).spec_states(), keep)
                    &&& r.spec_states() == filter_kept(old(self).spec_states(), keep)
                    &&& r.spec_present() == rearranged_present(
                        old(self).spec_states(),
                        keep,
                        old(self).spec_present(),
                    )
                },
    {
        History::rearrange(self, filter)
    }

    fn update_top(&mut self, element: T)
        ensures
            final(self).wf(),
            final(self).spec_capacity() == old(self).spec_capacity(),
            final(self).spec_name() == old(self).spec_name(),
            final(self).spec_equals() == old(self).spec_equals(),
            final(self).spec_present() == old(self).spec_present(),
            old(self).spec_states().len() == 0 ==> final(self).spec_states() == old(self).spec_states(),
            old(self).spec_states().len() > 0 ==> final(self).spec_states() == old(
                self,
            ).spec_states().update(old(self).spec_states().len() - 1, element),
    {
        History::update_top(self, element)
    }

    fn fork(&self, name: &str) -> (r: Self) where T: Clone
        ensures
            r.wf(),
            r.spec_name() == name@,
            r.spec_present() == self.spec_present(),
            r.spec_capacity() == self.spec_capacity(),
            r.spec_states().len() == self.spec_states().len(),
            forall|i: int|
                0 <= i < r.spec_states().len() ==> cloned::<T>(self.spec_states()[i], #[trigger] r.spec_states()[i]),
            forall|a: T, b: T, x: bool| r.spec_equals().answers(a, b, x) == self.spec_equals().answers(a, b, x),
    {
        History::fork(self, name)
    }
}

impl DinicLike for Dinic {
    open spec fn consistent(&self) -> bool {
        self.wf()
    }

    open spec fn edge_room(&self) -> bool {
        self.spec_arcs().len() + 2 <= usize::MAX
    }

    open spec fn node_count(&self) -> nat {
        self.spec_n()
    }

    open spec fn solvable(&self) -> bool {
        flows_fit(self.spec_arcs(), self.spec_n() as int, self.spec_source(), self.spec_sink())
    }

    fn init(&mut self, source: usize, sink: usize, n: usize)
        ensures
            final(self).wf(),
            final(self).spec_n() == n,
            final(self).spec_source() == source,
            final(self).spec_sink() == sink,
            final(self).spec_arcs().len() == 0,
    {
        Dinic::init(self, source, sink, n)
    }

    fn try_init(&mut self, source: usize, sink: usize, n: usize) -> (r: Result<(), DinicError>)
        ensures
            final(self).wf(),
            n == 0 ==> r == Err::<(), DinicError>(DinicError::InvalidNodeCount { n }),
            n > 0 && source >= n ==> r == Err::<(), DinicError>(DinicError::NodeOutOfRange { node: source, n }),
            n > 0 && source < n && sink >= n ==> r == Err::<(), DinicError>(DinicError::NodeOutOfRange { node: sink, n }),
            n > 0 && source < n && sink < n && source == sink ==> r == Err::<(), DinicError>(DinicError::SourceEqualsSink { node: source }),
            r is Err ==> *final(self) == *old(self),
            r is Ok <==> (n > 0 && source < n && sink < n && source != sink),
            r is Ok ==> final(self).spec_n() == n && final(self).spec_source() == source
                && final(self).spec_sink() == sink && final(self).spec_arcs().len() == 0,
    {
        Dinic::try_init(self, source, sink, n)
    }

    fn add_edge(&mut self, from: usize, to: usize, cap: i64)
        ensures
            final(self).wf(),
            final(self).spec_n() == old(self).spec_n(),
            final(self).spec_source() == old(self).spec_source(),
            final(self).spec_sink() == old(self).spec_sink(),
            final(self).spec_arcs() == old(self).spec_arcs()
                .push(ArcView { from, to, cap: cap as int, flow: 0 })
                .push(ArcView { from: to, to: from, cap: 0, flow: 0 }),
    {
        Dinic::add_edge(self, from, to, cap)
    }

    fn try_add_edge(&mut self, from: usize, to: usize, cap: i64) -> (r: Result<(), DinicError>)
        ensures
            final(self).wf(),
            old(self).spec_n() == 0 ==> r == Err::<(), DinicError>(DinicError::NotInitialized),
            old(self).spec_n() > 0 && from >= old(self).spec_n() ==> r == Err::<(), DinicError>(
                DinicError::NodeOutOfRange { node: from, n: old(self).spec_n() as usize }),
            old(self).spec_n() > 0 && from < old(self).spec_n() && to >= old(self).spec_n() ==> r == Err::<(), DinicError>(
                DinicError::NodeOutOfRange { node: to, n: old(self).spec_n() as usize }),
            old(self).spec_n() > 0 && from < old(self).spec_n() && to < old(self).spec_n() && cap < 0 ==> r == Err::<(), DinicError>(
                DinicError::NegativeCapacity { cap }),
            r is Err ==> *final(self) == *old(self),
            r is Ok <==> (old(self).spec_n() > 0 && from < old(self).spec_n() && to < old(self).spec_n() && cap >= 0),
            final(self).spec_n() == old(self).spec_n(),
            final(self).spec_source() == old(self).spec_source(),
            final(self).spec_sink() == old(self).spec_sink(),
            r is Ok ==> final(self).spec_arcs() == old(self).spec_arcs()
                .push(ArcView { from, to, cap: cap as int, flow: 0 })
                .push(ArcView { from: to, to: from, cap: 0, flow: 0 }),
    {
        Dinic::try_add_edge(self, from, to, cap)
    }

    fn maxflow(&mut self) -> (r: i64)
        ensures
            final(self).wf(),
            final(self).spec_n() == old(self).spec_n(),
            final(self).spec_source() == old(self).spec_source(),
            final(self).spec_sink() == old(self).spec_sink(),
            same_network(old(self).spec_arcs(), final(self).spec_arcs()),
            old(self).spec_n() == 0 ==> r == 0,
            old(self).spec_n() > 0 ==> final(self).spec_settled(),
            old(self).spec_n() > 0 ==> r == net_out(final(self).spec_arcs(), final(self).spec_source()),
            old(self).spec_n() > 0 ==> is_max_flow(final(self).spec_arcs(), final(self).spec_n() as int,
                final(self).spec_source(), final(self).spec_sink()),
            old(self).spec_n() > 0 ==> !residual_reach(final(self).spec_arcs(), final(self).spec_source(),
                final(self).spec_sink()),
            old(self).spec_n() > 0 ==> r == caps_of(cut_edges(final(self).spec_arcs(),
                reach_side(final(self).spec_arcs(), final(self).spec_source()))),
            old(self).spec_n() > 0 ==> cuts_at_least(final(self).spec_arcs(), final(self).spec_source(),
                final(self).spec_sink(), r as int),
    {
        Dinic::maxflow(self)
    }

    fn mincut(&mut self) -> (cut: Vec<DinicEdge>)
        ensures
            final(self).wf(),
            final(self).spec_n() == old(self).spec_n(),
            final(self).spec_source() == old(self).spec_source(),
            final(self).spec_sink() == old(self).spec_sink(),
            same_network(old(self).spec_arcs(), final(self).spec_arcs()),
            old(self).spec_n() == 0 ==> cut@.len() == 0,
            old(self).spec_n() > 0 ==> is_max_flow(final(self).spec_arcs(), final(self).spec_n() as int,
                final(self).spec_source(), final(self).spec_sink()),
            old(self).spec_n() > 0 ==> arcs_of(cut@) == cut_edges(final(self).spec_arcs(),
                reach_side(final(self).spec_arcs(), final(self).spec_source())),
            old(self).spec_n() > 0 ==> caps_of(arcs_of(cut@)) == net_out(final(self).spec_arcs(), final(self).spec_source()),
            old(self).spec_n() > 0 ==> !reach_side(final(self).spec_arcs(), final(self).spec_source())(
                final(self).spec_sink()),
            old(self).spec_n() > 0 ==> cuts_at_least(final(self).spec_arcs(), final(self).spec_source(),
                final(self).spec_sink(), caps_of(arcs_of(cut@))),
            forall|i: int| 0 <= i < cut@.len() ==> #[trigger] cut@[i].flow == cut@[i].cap,
    {
        Dinic::mincut(self)
    }
}

impl IsapLike for Isap {
    open spec fn consistent(&self) -> bool {
        self.wf()
    }

    open spec fn edge_room(&self) -> bool {
        self.spec_arcs().len() + 2 <= usize::MAX
    }

    open spec fn node_count(&self) -> nat {
        self.spec_n()
    }

    open spec fn solvable(&self) -> bool {
        flows_fit(self.spec_arcs(), self.spec_n() as int, self.spec_source(), self.spec_sink())
    }

    fn init(&mut self, source: usize, sink: usize, n: usize)
        ensures
            final(self).wf(),
            final(self).spec_n() == n,
            final(self).spec_source() == source,
            final(self).spec_sink() == sink,
            final(self).spec_arcs().len() == 0,
    {
        Isap::init(self, source, sink, n)
    }

    fn try_init(&mut self, source: usize, sink: usize, n: usize) -> (r: Result<(), IsapError>)
        ensures
            final(self).wf(),
            n == 0 ==> r == Err::<(), IsapError>(IsapError::InvalidNodeCount { n }),
            n > 0 && source >= n ==> r == Err::<(), IsapError>(IsapError::NodeOutOfRange { node: source, n }),
            n > 0 && source < n && sink >= n ==> r == Err::<(), IsapError>(IsapError::NodeOutOfRange { node: sink, n }),
            n > 0 && source < n && sink < n && source == sink ==> r == Err::<(), IsapError>(IsapError::SourceEqualsSink { node: source }),
            r is Err ==> *final(self) == *old(self),
            r is Ok <==> (n > 0 && source < n && sink < n && source != sink),
            r is Ok ==> final(self).spec_n() == n && final(self).spec_source() == source
                && final(self).spec_sink() == sink && final(self).spec_arcs().len() == 0,
    {
        Isap::try_init(self, source, sink, n)
    }

    fn add_edge(&mut self, from: usize, to: usize, cap: i64)
        ensures
            final(self).wf(),
            final(self).spec_n() == old(self).spec_n(),
            final(self).spec_source() == old(self).spec_source(),
            final(self).spec_sink() == old(self).spec_sink(),
            final(self).spec_arcs() == old(self).spec_arcs()
                .push(ArcView { from, to, cap: cap as int, flow: 0 })
                .push(ArcView { from: to, to: from, cap: 0, flow: 0 }),
    {
        Isap::add_edge(self, from, to, cap)
    }

    fn try_add_edge(&mut self, from: usize, to: usize, cap: i64) -> (r: Result<(), IsapError>)
        ensures
            final(self).wf(),
            old(self).spec_n() == 0 ==> r == Err::<(), IsapError>(IsapError::NotInitialized),
            old(self).spec_n() > 0 && from >= old(self).spec_n() ==> r == Err::<(), IsapError>(
                IsapError::NodeOutOfRange { node: from, n: old(self).spec_n() as usize }),
            old(self).spec_n() > 0 && from < old(self).spec_n() && to >= old(self).spec_n() ==> r == Err::<(), IsapError>(
                IsapError::NodeOutOfRange { node: to, n: old(self).spec_n() as usize }),
            old(self).spec_n() > 0 && from < old(self).spec_n() && to < old(self).spec_n() && cap < 0 ==> r == Err::<(), IsapError>(
                IsapError::NegativeCapacity { cap }),
            r is Err ==> *final(self) == *old(self),
            r is Ok <==> (old(self).spec_n() > 0 && from < old(self).spec_n() && to < old(self).spec_n() && cap >= 0),
            final(self).spec_n() == old(self).spec_n(),
            final(self).spec_source() == old(self).spec_source(),
            final(self).spec_sink() == old(self).spec_sink(),
            r is Ok ==> final(self).spec_arcs() == old(self).spec_arcs()
                .push(ArcView { from, to, cap: cap as int, flow: 0 })
                .push(ArcView { from: to, to: from, cap: 0, flow: 0 }),
    {
        Isap::try_add_edge(self, from, to, cap)
    }

    fn maxflow(&mut self) -> (r: i64)
        ensures
            final(self).wf(),
            final(self).spec_n() == old(self).spec_n(),
            final(self).spec_source() == old(self).spec_source(),
            final(self).spec_sink() == old(self).spec_sink(),
            same_network(old(self).spec_arcs(), final(self).spec_arcs()),
            old(self).spec_n() == 0 ==> r == 0,
            old(self).spec_n() > 0 ==> final(self).spec_settled(),
            old(self).spec_n() > 0 ==> r == net_out(final(self).spec_arcs(), final(self).spec_source()),
            old(self).spec_n() > 0 ==> is_max_flow(final(self).spec_arcs(), final(self).spec_n() as int,
                final(self).spec_source(), final(self).spec_sink()),
            old(self).spec_n() > 0 ==> !residual_reach(final(self).spec_arcs(), final(self).spec_source(),
                final(self).spec_sink()),
            old(self).spec_n() > 0 ==> r == caps_of(cut_edges(final(self).spec_arcs(),
                reach_side(final(self).spec_arcs(), final(self).spec_source()))),
            old(self).spec_n() > 0 ==> cuts_at_least(final(self).spec_arcs(), final(self).spec_source(),
                final(self).spec_sink(), r as int),
    {
        Isap::maxflow(self)
    }

    fn mincut(&mut self) -> (cut: Vec<IsapEdge>)
        ensures
            final(self).wf(),
            final(self).spec_n() == old(self).spec_n(),
            final(self).spec_source() == old(self).spec_source(),
            final(self).spec_sink() == old(self).spec_sink(),
            same_network(old(self).spec_arcs(), final(self).spec_arcs()),
            old(self).spec_n() == 0 ==> cut@.len() == 0,
            old(self).spec_n() > 0 ==> is_max_flow(final(self).spec_arcs(), final(self).spec_n() as int,
                final(self).spec_source(), final(self).spec_sink()),
            old(self).spec_n() > 0 ==> isap_arcs(cut@) == cut_edges(final(self).spec_arcs(),
                reach_side(final(self).spec_arcs(), final(self).spec_source())),
            old(self).spec_n() > 0 ==> caps_of(isap_arcs(cut@)) == net_out(final(self).spec_arcs(), final(self).spec_source()),
            old(self).spec_n() > 0 ==> !reach_side(final(self).spec_arcs(), final(self).spec_source())(
                final(self).spec_sink()),
            old(self).spec_n() > 0 ==> cuts_at_least(final(self).spec_arcs(), final(self).spec_source(),
                final(self).spec_sink(), caps_of(isap_arcs(cut@))),
            forall|i: int| 0 <= i < cut@.len() ==> #[trigger] cut@[i].flow == cut@[i].cap,
    {
        Isap::mincut(self)
    }
}

impl McmfLike for Mcmf {
    open spec fn consistent(&self) -> bool {
        self.wf()
    }

    open spec fn edge_room(&self) -> bool {
        self.spec_arcs().len() + 2 <= usize::MAX
    }

    open spec fn node_count(&self) -> nat {
        self.spec_n()
    }

    open spec fn solvable(&self) -> bool {
        &&& flows_fit(self.spec_arcs(), self.spec_n() as int, self.spec_source(), self.spec_sink())
        &&& costs_fit(self.spec_arcs(), self.spec_costs(), self.spec_n() as int, self.spec_source(), self.spec_sink())
    }

    fn init(&mut self, source: usize, sink: usize, n: usize)
        ensures
            final(self).wf(),
            final(self).spec_n() == n,
            final(self).spec_source() == source,
            final(self).spec_sink() == sink,
            final(self).spec_arcs().len() == 0,
            !final(self).spec_solved(),
            final(self).spec_edges() == Seq::<McmfEdge>::empty(),
            final(self).spec_costs() == Seq::<int>::empty(),
    {
        Mcmf::init(self, source, sink, n)
    }

    fn try_init(&mut self, source: usize, sink: usize, n: usize) -> (r: Result<(), McmfError>)
        ensures
            final(self).wf(),
            n == 0 ==> r == Err::<(), McmfError>(McmfError::InvalidNodeCount { n }),
            n > 0 && source >= n ==> r == Err::<(), McmfError>(McmfError::NodeOutOfRange { node: source, n }),
            n > 0 && source < n && sink >= n ==> r == Err::<(), McmfError>(McmfError::NodeOutOfRange { node: sink, n }),
            n > 0 && source < n && sink < n && source == sink ==> r == Err::<(), McmfError>(McmfError::SourceEqualsSink { node: source }),
            r is Err ==> *final(self) == *old(self),
            r is Ok <==> (n > 0 && source < n && sink < n && source != sink),
            r is Ok ==> final(self).spec_n() == n && final(self).spec_source() == source
                && final(self).spec_sink() == sink && final(self).spec_arcs().len() == 0,
            r is Ok ==> !final(self).spec_solved(),
            r is Ok ==> final(self).spec_edges() == Seq::<McmfEdge>::empty() && final(self).spec_costs() == Seq::<int>::empty(),
    {
        Mcmf::try_init(self, source, sink, n)
    }

    fn add_edge(&mut self, from: usize, to: usize, cap: i64, cost: i64)
        ensures
            final(self).wf(),
            final(self).spec_n() == old(self).spec_n(),
            final(self).spec_source() == old(self).spec_source(),
            final(self).spec_sink() == old(self).spec_sink(),
            final(self).spec_arcs() == old(self).spec_arcs()
                .push(ArcView { from, to, cap: cap as int, flow: 0 })
                .push(ArcView { from: to, to: from, cap: 0, flow: 0 }),
            final(self).spec_costs() == old(self).spec_costs().push(cost as int).push(-cost),
            final(self).spec_edges() == old(self).spec_edges().push(McmfEdge { from, to, cap, flow: 0, cost })
                .push(McmfEdge { from: to, to: from, cap: 0, flow: 0, cost: (-cost) as i64 }),
            !final(self).spec_solved(),
    {
        Mcmf::add_edge(self, from, to, cap, cost)
    }

    fn try_add_edge(&mut self, from: usize, to: usize, cap: i64, cost: i64) -> (r: Result<(), McmfError>)
        ensures
            final(self).wf(),
            old(self).spec_n() == 0 ==> r == Err::<(), McmfError>(McmfError::NotInitialized),
            old(self).spec_n() > 0 && from >= old(self).spec_n() ==> r == Err::<(), McmfError>(
                McmfError::NodeOutOfRange { node: from, n: old(self).spec_n() as usize }),
            old(self).spec_n() > 0 && from < old(self).spec_n() && to >= old(self).spec_n() ==> r == Err::<(), McmfError>(
                McmfError::NodeOutOfRange { node: to, n: old(self).spec_n() as usize }),
            old(self).spec_n() > 0 && from < old(self).spec_n() && to < old(self).spec_n() && cap < 0 ==> r == Err::<(), McmfError>(
                McmfError::NegativeCapacity { cap }),
            r is Err ==> *final(self) == *old(self),
            r is Ok <==> (old(self).spec_n() > 0 && from < old(self).spec_n() && to < old(self).spec_n() && cap >= 0),
            final(self).spec_n() == old(self).spec_n(),
            final(self).spec_source() == old(self).spec_source(),
            final(self).spec_sink() == old(self).spec_sink(),
            r is Ok ==> final(self).spec_arcs() == old(self).spec_arcs()
                .push(ArcView { from, to, cap: cap as int, flow: 0 })
                .push(ArcView { from: to, to: from, cap: 0, flow: 0 }),
            r is Ok ==> final(self).spec_costs() == old(self).spec_costs().push(cost as int).push(-cost),
            r is Ok ==> final(self).spec_edges() == old(self).spec_edges().push(McmfEdge { from, to, cap, flow: 0, cost })
                .push(McmfEdge { from: to, to: from, cap: 0, flow: 0, cost: (-cost) as i64 }),
            r is Err ==> final(self).spec_edges() == old(self).spec_edges(),
            r is Err ==> final(self).spec_costs() == old(self).spec_costs(),
            r is Ok ==> !final(self).spec_solved(),
    {
        Mcmf::try_add_edge(self, from, to, cap, cost)
    }

    fn min_cost_max_flow(&mut self) -> (r: McmfResult)
        ensures
            final(self).wf(),
            final(self).spec_n() == old(self).spec_n(),
            final(self).spec_source() == old(self).spec_source(),
            final(self).spec_sink() == old(self).spec_sink(),
            final(self).spec_inf() == old(self).spec_inf(),
            final(self).spec_strategy() == old(self).spec_strategy(),
            final(self).spec_costs() == old(self).spec_costs(),
            same_network(old(self).spec_arcs(), final(self).spec_arcs()),
            old(self).spec_n() == 0 ==> (r == McmfResult { mincost: 0, maxflow: 0 }),
            old(self).spec_n() > 0 ==> r.maxflow == net_out(final(self).spec_arcs(), final(self).spec_source()),
            old(self).spec_n() > 0 ==> r.mincost == flow_cost(final(self).spec_arcs(), final(self).spec_costs()),
            old(self).spec_n() > 0 ==> is_max_flow(final(self).spec_arcs(),
                final(self).spec_n() as int, final(self).spec_source(), final(self).spec_sink()),
            old(self).spec_n() > 0 ==> !residual_reach(final(self).spec_arcs(), final(self).spec_source(),
                final(self).spec_sink()),
            old(self).spec_n() > 0 ==> cuts_at_least(final(self).spec_arcs(), final(self).spec_source(),
                final(self).spec_sink(), r.maxflow as int),
            old(self).spec_n() > 0 ==> final(self).spec_solved(),
            old(self).spec_n() > 0 && has_feasible_prices(old(self).spec_arcs(), old(self).spec_costs())
                && mcmf_in_range(old(self).spec_costs(), old(self).spec_n() as int, old(self).spec_inf() as int)
                ==> least_cost(final(self).spec_arcs(), final(self).spec_costs(), final(self).spec_n() as int,
                final(self).spec_source(), final(self).spec_sink()),
            r == final(self).spec_result(),
            old(self).spec_solved() ==> *final(self) == *old(self),
    {
        Mcmf::min_cost_max_flow(self)
    }

    fn mincut(&mut self) -> (cut: Vec<McmfEdge>)
        ensures
            final(self).wf(),
            final(self).spec_n() == old(self).spec_n(),
            final(self).spec_source() == old(self).spec_source(),
            final(self).spec_sink() == old(self).spec_sink(),
            final(self).spec_costs() == old(self).spec_costs(),
            same_network(old(self).spec_arcs(), final(self).spec_arcs()),
            old(self).spec_n() == 0 ==> cut@.len() == 0,
            old(self).spec_n() > 0 ==> cut@ == reached_cut(final(self).spec_edges(), final(self).spec_dist(),
                final(self).spec_inf(), final(self).spec_edges().len() as int),
            old(self).spec_n() > 0 ==> is_max_flow(final(self).spec_arcs(),
                final(self).spec_n() as int, final(self).spec_source(), final(self).spec_sink()),
            old(self).spec_n() > 0 ==> mcmf_arcs(cut@) == cut_edges(
                final(self).spec_arcs(), reach_side(final(self).spec_arcs(), final(self).spec_source())),
            old(self).spec_n() > 0 ==> caps_of(mcmf_arcs(cut@)) == net_out(
                final(self).spec_arcs(), final(self).spec_source()),
            old(self).spec_n() > 0 ==> !reach_side(final(self).spec_arcs(), final(self).spec_source())(
                final(self).spec_sink()),
            old(self).spec_n() > 0 ==> cuts_at_least(final(self).spec_arcs(), final(self).spec_source(),
                final(self).spec_sink(), caps_of(mcmf_arcs(cut@))),
            forall|i: int| 0 <= i < cut@.len() ==> #[trigger] cut@[i].flow == cut@[i].cap,
    {
        Mcmf::mincut(self)
    }
}

} // verus!

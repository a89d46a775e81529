//! The decoded trace and the structural conditions under which it describes a tree.

use vstd::prelude::*;

verus! {

/// The payload of one trace entry.
#[derive(Debug, Clone, PartialEq, Eq)]
pub enum Event {
    /// A query issued during execution.
    Query { term: String },
    /// A rule invoked during execution.
    Rule { rule: String },
}

/// Why a decoded trace does not describe a tree.
#[derive(Debug, Clone, Copy, PartialEq, Eq, Structural)]
pub enum TraceError {
    /// The trace has no entries, so it has no root.
    Empty,
    /// There is not exactly one event per depth.
    EventCount,
    /// The first entry is not at depth 0.
    RootDepth,
    /// The entry at `index` lies deeper than the recorded maximum depth.
    DepthAboveMax { index: usize },
    /// The entry at `index` lies more than one level below its predecessor.
    DepthJump { index: usize },
    /// The entry at `index` returns to depth 0 from below, where no ancestor is left to hold it.
    BacktrackToRoot { index: usize },
}

/// What is wrong with entry `i` of `depths`, judged against its predecessor, if anything.
pub open spec fn fault_at(depths: Seq<usize>, max_depth: usize, i: int) -> Option<TraceError> {
    if i == 0 {
        if depths[0] != 0 {
            Some(TraceError::RootDepth)
        } else {
            None
        }
    } else if depths[i] > max_depth {
        Some(TraceError::DepthAboveMax { index: i as usize })
    } else if depths[i] > depths[i - 1] + 1 {
        Some(TraceError::DepthJump { index: i as usize })
    } else if depths[i] == 0 && depths[i - 1] > 0 {
        Some(TraceError::BacktrackToRoot { index: i as usize })
    } else {
        None
    }
}

/// The fault of the first faulty entry at or after `from`.
pub open spec fn first_fault_from(depths: Seq<usize>, max_depth: usize, from: int) -> Option<
    TraceError,
>
    decreases depths.len() - from,
{
    if from < 0 || from >= depths.len() {
        None
    } else if fault_at(depths, max_depth, from) is Some {
        fault_at(depths, max_depth, from)
    } else {
        first_fault_from(depths, max_depth, from + 1)
    }
}

/// The error that a trace of these parts is rejected with, `None` where it is accepted.
pub open spec fn trace_fault(depths: Seq<usize>, max_depth: usize, events: nat) -> Option<
    TraceError,
> {
    if depths.len() == 0 {
        Some(TraceError::Empty)
    } else if events != depths.len() {
        Some(TraceError::EventCount)
    } else {
        first_fault_from(depths, max_depth, 0)
    }
}

/// A depth sequence that is the pre-order listing of a rooted tree: it starts at the root,
/// never descends by more than one level at a time, and never returns to depth 0 from below.
pub open spec fn well_formed(depths: Seq<usize>) -> bool {
    &&& depths.len() > 0
    &&& depths[0] == 0
    &&& forall|i: int, j: int|
        #![trigger depths[i], depths[j]]
        0 <= i && j == i + 1 && j < depths.len() ==> depths[j] <= depths[i] + 1
    &&& forall|i: int, j: int|
        #![trigger depths[i], depths[j]]
        0 <= i && j == i + 1 && j < depths.len() && depths[i] > 0 ==> depths[j] > 0
}

/// All entries lie at or above depth `max_depth`.
pub open spec fn bounded_by(depths: Seq<usize>, max_depth: usize) -> bool {
    forall|i: int| 0 <= i < depths.len() ==> #[trigger] depths[i] <= max_depth
}

/// No entry from `from` on is faulty exactly when the scan from `from` finds nothing.
pub proof fn lemma_first_fault_none(depths: Seq<usize>, max_depth: usize, from: int)
    requires
        0 <= from,
    ensures
        first_fault_from(depths, max_depth, from) is None <==> forall|i: int|
            from <= i < depths.len() ==> fault_at(depths, max_depth, i) is None,
    decreases depths.len() - from,
{
    if from < depths.len() {
        lemma_first_fault_none(depths, max_depth, from + 1);
    }
}

/// A trace is accepted exactly when its depths are well formed and bounded and it has one
/// event per depth.
pub proof fn lemma_accepted_iff_well_formed(depths: Seq<usize>, max_depth: usize, events: nat)
    ensures
        trace_fault(depths, max_depth, events) is None <==> (well_formed(depths) && bounded_by(
            depths,
            max_depth,
        ) && events == depths.len()),
{
    lemma_first_fault_none(depths, max_depth, 0);
    if trace_fault(depths, max_depth, events) is None {
        assert forall|i: int, j: int|
            #![trigger depths[i], depths[j]]
            0 <= i && j == i + 1 && j < depths.len() implies depths[j] <= depths[i] + 1 by {
            assert(fault_at(depths, max_depth, j) is None);
        }
        assert forall|i: int, j: int|
            #![trigger depths[i], depths[j]]
            0 <= i && j == i + 1 && j < depths.len() && depths[i] > 0 implies depths[j] > 0 by {
            assert(fault_at(depths, max_depth, j) is None);
        }
        assert forall|i: int| 0 <= i < depths.len() implies #[trigger] depths[i] <= max_depth by {
            assert(fault_at(depths, max_depth, i) is None);
        }
        assert(fault_at(depths, max_depth, 0) is None);
    } else if events == depths.len() && depths.len() > 0 && bounded_by(depths, max_depth) {
        let i = choose|i: int| 0 <= i < depths.len() && fault_at(depths, max_depth, i) is Some;
        if i > 0 && well_formed(depths) {
            assert(depths[i] <= depths[i - 1] + 1);
            assert(depths[i - 1] > 0 ==> depths[i] > 0);
        }
    }
}

/// A decoded trace that meets the structural conditions: one event per depth, and depths
/// that list a rooted tree in pre-order, none of them below `max_depth`.
#[derive(Debug)]
pub struct Trace {
    max_depth: usize,
    depths: Vec<usize>,
    events: Vec<Event>,
}

impl Trace {
    #[verifier::type_invariant]
    spec fn inv(self) -> bool {
        &&& well_formed(self.depths@)
        &&& bounded_by(self.depths@, self.max_depth)
        &&& self.events.len() == self.depths.len()
    }

    /// The depth of each entry, in trace order.
    pub closed spec fn depth_seq(self) -> Seq<usize> {
        self.depths@
    }

    /// The recorded maximum depth.
    pub closed spec fn depth_limit(self) -> usize {
        self.max_depth
    }

    /// The payload of each entry, in trace order.
    pub closed spec fn event_seq(self) -> Seq<Event> {
        self.events@
    }

    /// Takes the parts of a decoded trace and keeps them if they describe a tree. A trace
    /// without entries and one with a wrong number of events are turned down as such; any
    /// other is turned down for its first faulty entry.
    pub fn new(max_depth: usize, depths: Vec<usize>, events: Vec<Event>) -> (r: Result<
        Trace,
        TraceError,
    >)
        ensures
            match r {
                Ok(t) => {
                    &&& trace_fault(depths@, max_depth, events@.len()) is None
                    &&& well_formed(depths@)
                    &&& bounded_by(depths@, max_depth)
                    &&& t.depth_seq() == depths@
                    &&& t.depth_limit() == max_depth
                    &&& t.event_seq() == events@
                },
                Err(e) => trace_fault(depths@, max_depth, events@.len()) == Some(e),
            },
    {
        let n: usize = depths.len();
        if n == 0 {
            return Err(TraceError::Empty);
        }
        if events.len() != n {
            return Err(TraceError::EventCount);
        }
        if depths[0] != 0 {
            return Err(TraceError::RootDepth);
        }
        let mut i: usize = 1;
        while i < n
            invariant
                1 <= i <= n,
                n == depths.len(),
                n == events.len(),
                first_fault_from(depths@, max_depth, 0) == first_fault_from(
                    depths@,
                    max_depth,
                    i as int,
                ),
            decreases n - i,
        {
            let d: usize = depths[i];
            let prev: usize = depths[i - 1];
            if d > max_depth {
                return Err(TraceError::DepthAboveMax { index: i });
            }
            if d > 0 && d - 1 > prev {
                return Err(TraceError::DepthJump { index: i });
            }
            if d == 0 && prev > 0 {
                return Err(TraceError::BacktrackToRoot { index: i });
            }
            i = i + 1;
        }
        proof {
            lemma_accepted_iff_well_formed(depths@, max_depth, events@.len());
        }
        Ok(Trace { max_depth, depths, events })
    }

    /// The number of entries, which is at least one.
    pub fn len(&self) -> (n: usize)
        ensures
            n == self.depth_seq().len(),
            n >= 1,
    {
        proof {
            use_type_invariant(self);
        }
        self.depths.len()
    }

    /// The depth of each entry, in trace order.
    pub fn depths(&self) -> (d: &Vec<usize>)
        ensures
            d@ == self.depth_seq(),
            well_formed(d@),
            bounded_by(d@, self.depth_limit()),
    {
        proof {
            use_type_invariant(self);
        }
        &self.depths
    }

    /// The recorded maximum depth.
    pub fn max_depth(&self) -> (m: usize)
        ensures
            m == self.depth_limit(),
    {
        self.max_depth
    }

    /// The payload of each entry, in trace order.
    pub fn events(&self) -> (e: &Vec<Event>)
        ensures
            e@ == self.event_seq(),
            e@.len() == self.depth_seq().len(),
    {
        proof {
            use_type_invariant(self);
        }
        &self.events
    }
}

/// The entry whose payload is on display: the one under the pointer where there is one,
/// else the one that the cart comes from.
pub open spec fn displayed(hovered: Option<usize>, cart_node: usize) -> usize {
    match hovered {
        Some(node) => node,
        None => cart_node,
    }
}

impl Trace {
    /// The event on display while the pointer is over the entry `hovered`, if any, and the
    /// cart comes from the entry `cart_node`. There is none where that entry is not in the
    /// trace.
    pub fn display_event(&self, hovered: Option<usize>, cart_node: usize) -> (e: Option<&Event>)
        ensures
            displayed(hovered, cart_node) < self.event_seq().len() ==> e == Some(
                &self.event_seq()[displayed(hovered, cart_node) as int],
            ),
            displayed(hovered, cart_node) >= self.event_seq().len() ==> e is None,
    {
        let shown: usize = match hovered {
            Some(node) => node,
            None => cart_node,
        };
        if shown < self.events.len() {
            Some(&self.events[shown])
        } else {
            None
        }
    }
}

} // verus!

//! The decisions of the recursive shading loop, apart from the colour
//! arithmetic: a path is traced with a budget of bounces, and each scene query
//! either ends it (a miss shows the background, an absorption is black) or
//! bounces it with one bounce less. A path whose budget runs out is black.
use vstd::prelude::*;

verus! {

/// What came of one scene query along a path.
#[derive(Clone, Copy, Debug, PartialEq, Eq, Structural)]
pub enum Event {
    /// The ray hit nothing.
    Missed,
    /// The ray hit a surface whose material absorbed it.
    Absorbed,
    /// The ray hit a surface and was scattered on.
    Scattered,
}

/// Where a path stands.
#[derive(Clone, Copy, Debug, PartialEq, Eq, Structural)]
pub enum PathState {
    /// The next ray is to be queried, with `depth_left` queries allowed.
    Tracing { depth_left: usize },
    /// The path ended on the background: its colour is the background's,
    /// tinted by the attenuations gathered so far.
    Background,
    /// The path contributes no light.
    Black,
}

impl PathState {
    /// The state of a path with a budget of `depth` queries.
    pub open spec fn start_spec(depth: usize) -> PathState {
        if depth == 0 { PathState::Black } else { PathState::Tracing { depth_left: depth } }
    }

    /// The state after the outcome `e` of a query.
    pub open spec fn step_spec(self, e: Event) -> PathState {
        match self {
            PathState::Tracing { depth_left } => match e {
                Event::Missed => PathState::Background,
                Event::Absorbed => PathState::Black,
                Event::Scattered => if depth_left <= 1 {
                    PathState::Black
                } else {
                    PathState::Tracing { depth_left: (depth_left - 1) as usize }
                },
            },
            _ => self,
        }
    }

    /// A path being traced has at least one query left.
    pub open spec fn wf(self) -> bool {
        match self {
            PathState::Tracing { depth_left } => depth_left > 0,
            _ => true,
        }
    }

    /// The state after the outcomes `es`, in order.
    pub open spec fn run(self, es: Seq<Event>) -> PathState
        decreases es.len(),
    {
        if es.len() == 0 {
            self
        } else {
            self.step_spec(es[0]).run(es.drop_first())
        }
    }

    /// The number of queries that are still to come at most.
    pub open spec fn budget(self) -> nat {
        match self {
            PathState::Tracing { depth_left } => depth_left as nat,
            _ => 0,
        }
    }

    /// The state of a path with a budget of `depth` queries: with none, it is
    /// black at once.
    pub fn start(depth: usize) -> (r: PathState)
        ensures
            r == PathState::start_spec(depth),
    {
        if depth == 0 {
            PathState::Black
        } else {
            PathState::Tracing { depth_left: depth }
        }
    }

    /// The state after a query whose outcome is `e`; a path that has ended
    /// stays where it is.
    pub fn step(&self, e: Event) -> (r: PathState)
        ensures
            r == self.step_spec(e),
    {
        match *self {
            PathState::Tracing { depth_left } => match e {
                Event::Missed => PathState::Background,
                Event::Absorbed => PathState::Black,
                Event::Scattered => if depth_left <= 1 {
                    PathState::Black
                } else {
                    PathState::Tracing { depth_left: depth_left - 1 }
                },
            },
            other => other,
        }
    }

    /// The path still needs a query.
    pub fn is_tracing(&self) -> (r: bool)
        ensures
            r == (self is Tracing),
    {
        matches!(self, PathState::Tracing { .. })
    }
}

/// A path never makes more queries than its budget: whatever the outcomes,
/// once `depth` of them have come the path has ended. With a budget of zero
/// the path is black before any query.
pub proof fn lemma_path_ends_within_depth(depth: usize, es: Seq<Event>)
    requires
        es.len() >= depth,
    ensures
        !(PathState::start_spec(depth).run(es) is Tracing),
        depth == 0 ==> PathState::start_spec(depth) == PathState::Black,
{
    lemma_run_budget(PathState::start_spec(depth), es);
}

proof fn lemma_run_budget(s: PathState, es: Seq<Event>)
    requires
        s.wf(),
        es.len() >= s.budget(),
    ensures
        !(s.run(es) is Tracing),
    decreases es.len(),
{
    if !(s is Tracing) {
        lemma_run_stays(s, es);
    } else {
        lemma_run_budget(s.step_spec(es[0]), es.drop_first());
    }
}

proof fn lemma_run_stays(s: PathState, es: Seq<Event>)
    requires
        !(s is Tracing),
    ensures
        s.run(es) == s,
    decreases es.len(),
{
    if es.len() > 0 {
        lemma_run_stays(s.step_spec(es[0]), es.drop_first());
    }
}

} // verus!

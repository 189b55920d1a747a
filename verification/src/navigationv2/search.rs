use vstd::prelude::*;

use crate::navigationv2::WorldArea;
use crate::slab::SlabLocation;

verus! {

/// How many times a search tries again after waiting for slabs before giving up.
pub const MAX_SEARCH_ATTEMPTS: u8 = 8;

/// Why a path search ended without a path.
#[derive(Debug, Copy, Clone, PartialEq, Eq, Structural)]
pub enum SearchFailure {
    /// The source block is not accessible.
    SourceNotWalkable,
    /// The destination block is not accessible.
    DestinationNotWalkable,
    /// An area of the world graph is not in the graph.
    InvalidArea(WorldArea),
    /// No path found.
    NoPath,
    /// World changed during search, and max retries reached.
    WorldChanged,
    /// Channel disconnected waiting for slabs to load.
    WaitingForSlabLoading,
    /// Search future has ended but was polled again.
    FinishedAlready,
    /// Search token expired.
    Aborted,
}

/// Where a search stands.
#[derive(Debug, Copy, Clone, PartialEq, Eq, Structural)]
pub enum SearchState {
    /// Looking up the areas of the two ends, in the given attempt, counted from 0.
    Resolving { attempt: u8 },
    /// Searching the world graph between the two ends' areas.
    Searching { attempt: u8 },
    /// Waiting for slabs to finish loading before trying again.
    Waiting { attempt: u8 },
    /// A path was found and published; the slabs it crosses are watched for changes.
    Watching,
    /// A watched slab changed and the path was withdrawn; waiting to learn where to search
    /// from again.
    AwaitingSource,
    /// The search is over.
    Done(SearchFailure),
}

/// What looking up the area of one end of a search found.
#[derive(Debug, Copy, Clone, PartialEq, Eq, Structural)]
pub enum EndLookup {
    /// The end's slab is loaded and the block has this area.
    Area(WorldArea),
    /// The end's slab is not loaded yet.
    NotLoaded(SlabLocation),
    /// The end's slab is loaded and no area there holds the block.
    NotWalkable,
}

/// Where to search from again, as the searcher's token tells it.
#[derive(Debug, Copy, Clone, PartialEq, Eq, Structural)]
pub enum SourceUpdate {
    /// From the same point as before.
    Unchanged,
    /// From a new point.
    New,
    /// Not at all: the search is no longer wanted.
    Abort,
}

/// What happened in the outside work a search asked for.
#[derive(Debug, Copy, Clone, PartialEq, Eq, Structural)]
pub enum SearchEvent {
    /// The two ends were looked up: source, then destination.
    EndsResolved(EndLookup, EndLookup),
    /// The graph search found a path.
    PathFound,
    /// The graph search met slabs still loading, and must wait for them.
    PathNeedsSlabs,
    /// The graph search failed.
    PathFailed(SearchFailure),
    /// The slabs waited for are ready, or the wait is to be tried again.
    SlabsReady,
    /// A watched slab changed.
    WatchedSlabChanged,
    /// The channel of load notifications was disconnected.
    Disconnected,
    /// The searcher's token told where to search from again.
    Source(SourceUpdate),
}

/// What a search asks to be done next.
#[derive(Debug, Copy, Clone, PartialEq, Eq, Structural)]
pub enum SearchAction {
    /// Look up the areas of the two ends, the source being a new point if `new_source`.
    ResolveEnds { new_source: bool },
    /// Search the world graph from the first area to the second.
    FindPath(WorldArea, WorldArea),
    /// Wait for these slabs, the ends' slabs that are not loaded, to finish loading.
    WaitForSlabs(Option<SlabLocation>, Option<SlabLocation>),
    /// Wait for the slabs that the graph search met loading.
    WaitForPathSlabs,
    /// Publish the path found and watch the slabs it crosses.
    PublishAndWatch,
    /// Keep watching the path's slabs.
    KeepWatching,
    /// Withdraw the path and ask the searcher's token where to search from again.
    Invalidate,
    /// Stop with this failure.
    Stop(SearchFailure),
    /// Nothing: the event does not fit the state.
    Nothing,
}

/// The next state after resolving both ends in the given attempt, and what to do.
pub open spec fn after_resolving(attempt: u8, src: EndLookup, dst: EndLookup) -> (SearchState, SearchAction) {
    match (src, dst) {
        (EndLookup::NotWalkable, _) => (
            SearchState::Done(SearchFailure::SourceNotWalkable),
            SearchAction::Stop(SearchFailure::SourceNotWalkable),
        ),
        (_, EndLookup::NotWalkable) => (
            SearchState::Done(SearchFailure::DestinationNotWalkable),
            SearchAction::Stop(SearchFailure::DestinationNotWalkable),
        ),
        (EndLookup::Area(a), EndLookup::Area(b)) => (
            SearchState::Searching { attempt },
            SearchAction::FindPath(a, b),
        ),
        (EndLookup::NotLoaded(s), EndLookup::NotLoaded(d)) => (
            SearchState::Waiting { attempt },
            SearchAction::WaitForSlabs(Some(s), Some(d)),
        ),
        (EndLookup::NotLoaded(s), _) => (
            SearchState::Waiting { attempt },
            SearchAction::WaitForSlabs(Some(s), None),
        ),
        (_, EndLookup::NotLoaded(d)) => (
            SearchState::Waiting { attempt },
            SearchAction::WaitForSlabs(None, Some(d)),
        ),
    }
}

/// One step of a path search: from where it stands and what happened, where it stands next
/// and what it asks to be done. Each search tries at most [MAX_SEARCH_ATTEMPTS] times, waiting
/// for slabs between tries, then fails as the world changed; a lost notification channel
/// ends it; once a path is found its slabs are watched, and a change withdraws the path and
/// asks where to search from again, the searcher's token deciding whether to go on.
pub open spec fn search_step_spec(state: SearchState, event: SearchEvent) -> (SearchState, SearchAction) {
    match (state, event) {
        (SearchState::Resolving { attempt }, SearchEvent::EndsResolved(src, dst)) => after_resolving(
            attempt,
            src,
            dst,
        ),
        (SearchState::Searching { attempt }, SearchEvent::PathFound) => (
            SearchState::Watching,
            SearchAction::PublishAndWatch,
        ),
        (SearchState::Searching { attempt }, SearchEvent::PathNeedsSlabs) => (
            SearchState::Waiting { attempt },
            SearchAction::WaitForPathSlabs,
        ),
        (SearchState::Searching { attempt }, SearchEvent::PathFailed(e)) => (
            SearchState::Done(e),
            SearchAction::Stop(e),
        ),
        (SearchState::Waiting { attempt }, SearchEvent::SlabsReady) => if attempt + 1
            < MAX_SEARCH_ATTEMPTS {
            (
                SearchState::Resolving { attempt: (attempt + 1) as u8 },
                SearchAction::ResolveEnds { new_source: false },
            )
        } else {
            (
                SearchState::Done(SearchFailure::WorldChanged),
                SearchAction::Stop(SearchFailure::WorldChanged),
            )
        },
        (SearchState::Waiting { attempt }, SearchEvent::Disconnected) => (
            SearchState::Done(SearchFailure::WaitingForSlabLoading),
            SearchAction::Stop(SearchFailure::WaitingForSlabLoading),
        ),
        (SearchState::Watching, SearchEvent::WatchedSlabChanged) => (
            SearchState::AwaitingSource,
            SearchAction::Invalidate,
        ),
        (SearchState::Watching, SearchEvent::SlabsReady) => (
            SearchState::Watching,
            SearchAction::KeepWatching,
        ),
        (SearchState::Watching, SearchEvent::Disconnected) => (
            SearchState::Done(SearchFailure::WaitingForSlabLoading),
            SearchAction::Stop(SearchFailure::WaitingForSlabLoading),
        ),
        (SearchState::AwaitingSource, SearchEvent::Source(SourceUpdate::Unchanged)) => (
            SearchState::Resolving { attempt: 0 },
            SearchAction::ResolveEnds { new_source: false },
        ),
        (SearchState::AwaitingSource, SearchEvent::Source(SourceUpdate::New)) => (
            SearchState::Resolving { attempt: 0 },
            SearchAction::ResolveEnds { new_source: true },
        ),
        (SearchState::AwaitingSource, SearchEvent::Source(SourceUpdate::Abort)) => (
            SearchState::Done(SearchFailure::Aborted),
            SearchAction::Stop(SearchFailure::Aborted),
        ),
        _ => (state, SearchAction::Nothing),
    }
}

/// A search starts by looking up its two ends, in its first attempt.
pub fn search_start() -> (r: (SearchState, SearchAction))
    ensures
        r == (SearchState::Resolving { attempt: 0 }, SearchAction::ResolveEnds { new_source: false }),
{
    (SearchState::Resolving { attempt: 0 }, SearchAction::ResolveEnds { new_source: false })
}

fn resolve_step(attempt: u8, src: EndLookup, dst: EndLookup) -> (r: (SearchState, SearchAction))
    ensures
        r == after_resolving(attempt, src, dst),
{
    match (src, dst) {
        (EndLookup::NotWalkable, _) => (
            SearchState::Done(SearchFailure::SourceNotWalkable),
            SearchAction::Stop(SearchFailure::SourceNotWalkable),
        ),
        (_, EndLookup::NotWalkable) => (
            SearchState::Done(SearchFailure::DestinationNotWalkable),
            SearchAction::Stop(SearchFailure::DestinationNotWalkable),
        ),
        (EndLookup::Area(a), EndLookup::Area(b)) => (
            SearchState::Searching { attempt },
            SearchAction::FindPath(a, b),
        ),
        (EndLookup::NotLoaded(s), EndLookup::NotLoaded(d)) => (
            SearchState::Waiting { attempt },
            SearchAction::WaitForSlabs(Some(s), Some(d)),
        ),
        (EndLookup::NotLoaded(s), _) => (
            SearchState::Waiting { attempt },
            SearchAction::WaitForSlabs(Some(s), None),
        ),
        (_, EndLookup::NotLoaded(d)) => (
            SearchState::Waiting { attempt },
            SearchAction::WaitForSlabs(None, Some(d)),
        ),
    }
}

/// One step of a path search, as [search_step_spec] says.
pub fn search_step(state: SearchState, event: SearchEvent) -> (r: (SearchState, SearchAction))
    ensures
        r == search_step_spec(state, event),
{
    match (state, event) {
        (SearchState::Resolving { attempt }, SearchEvent::EndsResolved(src, dst)) => resolve_step(
            attempt,
            src,
            dst,
        ),
        (SearchState::Searching { attempt: _ }, SearchEvent::PathFound) => (
            SearchState::Watching,
            SearchAction::PublishAndWatch,
        ),
        (SearchState::Searching { attempt }, SearchEvent::PathNeedsSlabs) => (
            SearchState::Waiting { attempt },
            SearchAction::WaitForPathSlabs,
        ),
        (SearchState::Searching { attempt: _ }, SearchEvent::PathFailed(e)) => (
            SearchState::Done(e),
            SearchAction::Stop(e),
        ),
        (SearchState::Waiting { attempt }, SearchEvent::SlabsReady) => {
            if attempt < MAX_SEARCH_ATTEMPTS - 1 {
                (
                    SearchState::Resolving { attempt: attempt + 1 },
                    SearchAction::ResolveEnds { new_source: false },
                )
            } else {
                (
                    SearchState::Done(SearchFailure::WorldChanged),
                    SearchAction::Stop(SearchFailure::WorldChanged),
                )
            }
        },
        (SearchState::Waiting { attempt: _ }, SearchEvent::Disconnected) => (
            SearchState::Done(SearchFailure::WaitingForSlabLoading),
            SearchAction::Stop(SearchFailure::WaitingForSlabLoading),
        ),
        (SearchState::Watching, SearchEvent::WatchedSlabChanged) => (
            SearchState::AwaitingSource,
            SearchAction::Invalidate,
        ),
        (SearchState::Watching, SearchEvent::SlabsReady) => (
            SearchState::Watching,
            SearchAction::KeepWatching,
        ),
        (SearchState::Watching, SearchEvent::Disconnected) => (
            SearchState::Done(SearchFailure::WaitingForSlabLoading),
            SearchAction::Stop(SearchFailure::WaitingForSlabLoading),
        ),
        (SearchState::AwaitingSource, SearchEvent::Source(SourceUpdate::Unchanged)) => (
            SearchState::Resolving { attempt: 0 },
            SearchAction::ResolveEnds { new_source: false },
        ),
        (SearchState::AwaitingSource, SearchEvent::Source(SourceUpdate::New)) => (
            SearchState::Resolving { attempt: 0 },
            SearchAction::ResolveEnds { new_source: true },
        ),
        (SearchState::AwaitingSource, SearchEvent::Source(SourceUpdate::Abort)) => (
            SearchState::Done(SearchFailure::Aborted),
            SearchAction::Stop(SearchFailure::Aborted),
        ),
        _ => (state, SearchAction::Nothing),
    }
}

/// The attempt a search is in stays below [MAX_SEARCH_ATTEMPTS].
pub open spec fn search_state_wf(state: SearchState) -> bool {
    match state {
        SearchState::Resolving { attempt } => attempt < MAX_SEARCH_ATTEMPTS,
        SearchState::Searching { attempt } => attempt < MAX_SEARCH_ATTEMPTS,
        SearchState::Waiting { attempt } => attempt < MAX_SEARCH_ATTEMPTS,
        _ => true,
    }
}

/// Every step keeps a search within its attempts: no search tries more than
/// [MAX_SEARCH_ATTEMPTS] times before it starts again from a new source or ends.
pub proof fn lemma_search_attempts_bounded(state: SearchState, event: SearchEvent)
    requires
        search_state_wf(state),
    ensures
        search_state_wf(search_step_spec(state, event).0),
{
}

/// Waiting in the last attempt and being told the slabs are ready ends the search as the
/// world having changed; in an earlier attempt it tries again, one attempt on.
pub proof fn lemma_retry_or_give_up(attempt: u8)
    requires
        attempt < MAX_SEARCH_ATTEMPTS,
    ensures
        attempt + 1 == MAX_SEARCH_ATTEMPTS ==> search_step_spec(SearchState::Waiting { attempt }, SearchEvent::SlabsReady)
            == (SearchState::Done(SearchFailure::WorldChanged), SearchAction::Stop(SearchFailure::WorldChanged)),
        attempt + 1 < MAX_SEARCH_ATTEMPTS ==> search_step_spec(SearchState::Waiting { attempt }, SearchEvent::SlabsReady).0
            == (SearchState::Resolving { attempt: (attempt + 1) as u8 }),
{
}

/// A search that is over stays over, whatever happens.
pub proof fn lemma_done_is_final(e: SearchFailure, event: SearchEvent)
    ensures
        search_step_spec(SearchState::Done(e), event) == (SearchState::Done(e), SearchAction::Nothing),
{
}


/// Resolving the two ends: a source that is not walkable ends the search as such; otherwise a
/// destination that is not walkable ends it as such, and only then; two areas start the graph
/// search between them in the same attempt; and an end whose slab is not loaded yet is waited
/// for, in the same attempt, the other end's slab too where it is not loaded either.
pub proof fn lemma_resolving_ends(attempt: u8, src: EndLookup, dst: EndLookup)
    ensures
        ({
            let (state, action) = search_step_spec(SearchState::Resolving { attempt }, SearchEvent::EndsResolved(src, dst));
            &&& (state == SearchState::Done(SearchFailure::SourceNotWalkable)) == (src is NotWalkable)
            &&& (state == SearchState::Done(SearchFailure::DestinationNotWalkable)) == (!(src is NotWalkable) && dst is NotWalkable)
            &&& state is Done ==> src is NotWalkable || dst is NotWalkable
            &&& (src is Area && dst is Area) ==> state == SearchState::Searching { attempt }
                && action == SearchAction::FindPath(src->Area_0, dst->Area_0)
            &&& (!(src is NotWalkable) && dst is NotLoaded) ==> state == SearchState::Waiting { attempt }
                && action is WaitForSlabs && action->WaitForSlabs_1 == Some(dst->NotLoaded_0)
            &&& (src is NotLoaded && !(dst is NotWalkable)) ==> state == SearchState::Waiting { attempt }
                && action is WaitForSlabs && action->WaitForSlabs_0 == Some(src->NotLoaded_0)
            &&& state is Waiting ==> src is NotLoaded || dst is NotLoaded
            &&& action is WaitForSlabs ==> (action->WaitForSlabs_0 is Some <==> src is NotLoaded) && (
                action->WaitForSlabs_1 is Some <==> dst is NotLoaded)
        }),
{
}


/// A live search stops exactly when it ends, reporting the failure it ends with; a found path
/// is published and watched; a graph search that meets loading slabs waits in the same attempt;
/// a lost notification channel ends a wait or a watch; a changed watched slab withdraws the
/// path; and the searcher's token either starts over in the first attempt, from a new source
/// only when it says so, or aborts.
pub proof fn lemma_search_lifecycle(state: SearchState, event: SearchEvent)
    requires
        !(state is Done),
    ensures
        ({
            let (next, action) = search_step_spec(state, event);
            &&& (next is Done) == (action is Stop)
            &&& next is Done ==> action->Stop_0 == next->Done_0
            &&& action is Nothing ==> next == state
            &&& (state is Searching && event == SearchEvent::PathFound) ==> next == SearchState::Watching && action
                == SearchAction::PublishAndWatch
            &&& (state is Searching && event == SearchEvent::PathNeedsSlabs) ==> next == SearchState::Waiting {
                attempt: state->Searching_attempt,
            } && action == SearchAction::WaitForPathSlabs
            &&& (state is Searching && event is PathFailed) ==> next == SearchState::Done(event->PathFailed_0)
            &&& ((state is Waiting || state is Watching) && event == SearchEvent::Disconnected) ==> next
                == SearchState::Done(SearchFailure::WaitingForSlabLoading)
            &&& (state is Watching && event == SearchEvent::WatchedSlabChanged) ==> next == SearchState::AwaitingSource
                && action == SearchAction::Invalidate
            &&& (state is AwaitingSource && event is Source) ==> (next == SearchState::Done(SearchFailure::Aborted)
                <==> event->Source_0 == SourceUpdate::Abort)
            &&& (state is AwaitingSource && event is Source && event->Source_0 != SourceUpdate::Abort) ==> next
                == SearchState::Resolving { attempt: 0 } && action == SearchAction::ResolveEnds {
                new_source: event->Source_0 == SourceUpdate::New,
            }
        }),
{
}

} // verus!

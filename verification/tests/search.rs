use world::coordinate::world::ChunkPosition;
use world::navigationv2::search::{
    search_start, search_step, EndLookup, SearchAction, SearchEvent, SearchFailure, SearchState,
    SourceUpdate,
};
use world::navigationv2::{ChunkArea, SlabArea, WorldArea};
use world::chunk::slice_navmesh::SliceAreaIndex;
use world::slab::SlabLocation;

fn area(x: i32) -> WorldArea {
    WorldArea {
        chunk_idx: ChunkPosition(x, 0),
        chunk_area: ChunkArea {
            slab_idx: 0,
            slab_area: SlabArea {
                slice_idx: 1,
                slice_area: SliceAreaIndex(0),
            },
        },
    }
}

#[test]
fn search_finds_watches_and_restarts() {
    let (s, a) = search_start();
    assert_eq!(a, SearchAction::ResolveEnds { new_source: false });
    let (s, a) = search_step(s, SearchEvent::EndsResolved(EndLookup::Area(area(0)), EndLookup::Area(area(1))));
    assert_eq!(a, SearchAction::FindPath(area(0), area(1)));
    let (s, a) = search_step(s, SearchEvent::PathFound);
    assert_eq!((s, a), (SearchState::Watching, SearchAction::PublishAndWatch));
    let (s, a) = search_step(s, SearchEvent::SlabsReady);
    assert_eq!((s, a), (SearchState::Watching, SearchAction::KeepWatching));
    let (s, a) = search_step(s, SearchEvent::WatchedSlabChanged);
    assert_eq!((s, a), (SearchState::AwaitingSource, SearchAction::Invalidate));
    let (s, a) = search_step(s, SearchEvent::Source(SourceUpdate::New));
    assert_eq!((s, a), (SearchState::Resolving { attempt: 0 }, SearchAction::ResolveEnds { new_source: true }));
    let (s, a) = search_step(s, SearchEvent::EndsResolved(EndLookup::Area(area(0)), EndLookup::NotWalkable));
    assert_eq!(s, SearchState::Done(SearchFailure::DestinationNotWalkable));
    assert_eq!(a, SearchAction::Stop(SearchFailure::DestinationNotWalkable));
    // over is over
    assert_eq!(search_step(s, SearchEvent::PathFound), (s, SearchAction::Nothing));
}

#[test]
fn search_waits_for_slabs_then_gives_up() {
    let src = SlabLocation::new(0, ChunkPosition(0, 0));
    let dst = SlabLocation::new(2, ChunkPosition(3, 0));
    let (mut s, _) = search_start();
    for attempt in 0..8u8 {
        assert_eq!(s, SearchState::Resolving { attempt });
        let (s2, a) = search_step(s, SearchEvent::EndsResolved(EndLookup::NotLoaded(src), EndLookup::NotLoaded(dst)));
        assert_eq!(a, SearchAction::WaitForSlabs(Some(src), Some(dst)));
        let (s3, a) = search_step(s2, SearchEvent::SlabsReady);
        s = s3;
        if attempt < 7 {
            assert_eq!(a, SearchAction::ResolveEnds { new_source: false });
        } else {
            assert_eq!(a, SearchAction::Stop(SearchFailure::WorldChanged));
        }
    }
    assert_eq!(s, SearchState::Done(SearchFailure::WorldChanged));
}

#[test]
fn search_fails_on_source_disconnect_and_abort() {
    let (s, _) = search_start();
    let (s, a) = search_step(s, SearchEvent::EndsResolved(EndLookup::NotWalkable, EndLookup::NotLoaded(SlabLocation::new(0, ChunkPosition(0, 0)))));
    assert_eq!(a, SearchAction::Stop(SearchFailure::SourceNotWalkable));
    assert_eq!(s, SearchState::Done(SearchFailure::SourceNotWalkable));

    let (s, a) = search_step(SearchState::Searching { attempt: 2 }, SearchEvent::PathNeedsSlabs);
    assert_eq!((s, a), (SearchState::Waiting { attempt: 2 }, SearchAction::WaitForPathSlabs));
    let (_, a) = search_step(s, SearchEvent::Disconnected);
    assert_eq!(a, SearchAction::Stop(SearchFailure::WaitingForSlabLoading));

    let (s, a) = search_step(SearchState::AwaitingSource, SearchEvent::Source(SourceUpdate::Abort));
    assert_eq!((s, a), (SearchState::Done(SearchFailure::Aborted), SearchAction::Stop(SearchFailure::Aborted)));
    let (_, a) = search_step(SearchState::Searching { attempt: 0 }, SearchEvent::PathFailed(SearchFailure::NoPath));
    assert_eq!(a, SearchAction::Stop(SearchFailure::NoPath));
}

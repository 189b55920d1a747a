use world::loader::load_task::{load_step, LoadAction, LoadEvent, LoadStage};

#[test]
fn new_slab_loads_in_order() {
    let s = LoadStage::Requested { is_update: false };
    let (s, a) = load_step(s, LoadEvent::TerrainReady { found: true, entities: true });
    assert_eq!(a, LoadAction::PlaceTerrain { spawn_entities: true, all_neighbours: true });
    assert_eq!(s, LoadStage::TerrainInWorld { is_update: false });
    let (s, a) = load_step(s, LoadEvent::AreasDiscovered { above: true });
    assert_eq!(a, LoadAction::PlaceGraph { update_above: true, keep_hashes: false });
    let (s, a) = load_step(s, LoadEvent::GraphPlaced { found: true });
    assert_eq!((s, a), (LoadStage::DoneInIsolation, LoadAction::LinkNeighbours));
    let (s, a) = load_step(s, LoadEvent::Linked);
    assert_eq!((s, a), (LoadStage::Done, LoadAction::MarkDone));
    // nothing more happens
    assert_eq!(load_step(s, LoadEvent::Linked), (LoadStage::Done, LoadAction::Nothing));
}

#[test]
fn updated_slab_gone_stops() {
    let s = LoadStage::Requested { is_update: true };
    assert_eq!(
        load_step(s, LoadEvent::TerrainReady { found: false, entities: false }),
        (LoadStage::Done, LoadAction::Stop)
    );
    let (s, a) = load_step(s, LoadEvent::TerrainReady { found: true, entities: false });
    assert_eq!(a, LoadAction::PlaceTerrain { spawn_entities: false, all_neighbours: false });
    let (s, a) = load_step(s, LoadEvent::AreasDiscovered { above: false });
    assert_eq!(a, LoadAction::PlaceGraph { update_above: false, keep_hashes: true });
    assert_eq!(load_step(s, LoadEvent::GraphPlaced { found: false }), (LoadStage::Done, LoadAction::Stop));
    // an event out of place does nothing
    assert_eq!(load_step(s, LoadEvent::Linked), (s, LoadAction::Nothing));
}

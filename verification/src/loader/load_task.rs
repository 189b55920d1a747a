use vstd::prelude::*;

verus! {

/// Where the loading of one slab stands, from its terrain arriving to its links with its
/// neighbours.
#[derive(Debug, Copy, Clone, PartialEq, Eq, Structural)]
pub enum LoadStage {
    /// The slab is requested; its terrain is new (generated) or changed (an update).
    Requested { is_update: bool },
    /// The terrain is in the world; occlusion and areas are being worked out.
    TerrainInWorld { is_update: bool },
    /// The areas are discovered; the slab's area graph is going into the world.
    AreasFound { is_update: bool },
    /// The slab's area graph is in the world; it is being linked with its neighbours.
    DoneInIsolation,
    /// Loading is over.
    Done,
}

/// What happened in the outside work the loading asked for.
#[derive(Debug, Copy, Clone, PartialEq, Eq, Structural)]
pub enum LoadEvent {
    /// The terrain is at hand: `found` is false when the slab of an update is no longer in
    /// the world; `entities` tells whether the slab came with entities to spawn.
    TerrainReady { found: bool, entities: bool },
    /// Occlusion was updated and the areas discovered; `above` tells whether the slab above
    /// is loaded and takes new areas from this one.
    AreasDiscovered { above: bool },
    /// The slab's area graph was put into the world; `found` is false when the slab was gone.
    GraphPlaced { found: bool },
    /// The slab was linked with its neighbours.
    Linked,
}

/// What the loading asks to be done next.
#[derive(Debug, Copy, Clone, PartialEq, Eq, Structural)]
pub enum LoadAction {
    /// Put the terrain into its chunk, marking the slab TerrainInWorld, spawning the slab's
    /// entities if `spawn_entities`; then update the occlusion of the neighbouring slabs (all
    /// of them for new terrain, the affected ones for an update) and of this slab, mark the
    /// slab dirty, and discover its areas.
    PlaceTerrain { spawn_entities: bool, all_neighbours: bool },
    /// Put the slab's area graph into the world, marking it DoneInIsolation, after marking the
    /// slab above as updating and handing it this slab's new areas if `update_above`; keeping
    /// the slab's old border hashes if it is an update.
    PlaceGraph { update_above: bool, keep_hashes: bool },
    /// Link the slab's areas with its neighbours.
    LinkNeighbours,
    /// Mark the slab Done.
    MarkDone,
    /// Stop here: the slab is gone.
    Stop,
    /// Nothing: the event does not fit the stage.
    Nothing,
}

/// One step of loading a slab: from the stage and what happened, the next stage and what to
/// do. Stages only move forward, Requested to TerrainInWorld to DoneInIsolation to Done; an
/// update whose slab is gone stops at once.
pub open spec fn load_step_spec(stage: LoadStage, event: LoadEvent) -> (LoadStage, LoadAction) {
    match (stage, event) {
        (LoadStage::Requested { is_update }, LoadEvent::TerrainReady { found, entities }) => if is_update
            && !found {
            (LoadStage::Done, LoadAction::Stop)
        } else {
            (
                LoadStage::TerrainInWorld { is_update },
                LoadAction::PlaceTerrain { spawn_entities: entities, all_neighbours: !is_update },
            )
        },
        (LoadStage::TerrainInWorld { is_update }, LoadEvent::AreasDiscovered { above }) => (
            LoadStage::AreasFound { is_update },
            LoadAction::PlaceGraph { update_above: above, keep_hashes: is_update },
        ),
        (LoadStage::AreasFound { is_update }, LoadEvent::GraphPlaced { found }) => if found {
            (LoadStage::DoneInIsolation, LoadAction::LinkNeighbours)
        } else {
            (LoadStage::Done, LoadAction::Stop)
        },
        (LoadStage::DoneInIsolation, LoadEvent::Linked) => (LoadStage::Done, LoadAction::MarkDone),
        _ => (stage, LoadAction::Nothing),
    }
}

/// One step of loading a slab, as [load_step_spec] says.
pub fn load_step(stage: LoadStage, event: LoadEvent) -> (r: (LoadStage, LoadAction))
    ensures
        r == load_step_spec(stage, event),
{
    match (stage, event) {
        (LoadStage::Requested { is_update }, LoadEvent::TerrainReady { found, entities }) => {
            if is_update && !found {
                (LoadStage::Done, LoadAction::Stop)
            } else {
                (
                    LoadStage::TerrainInWorld { is_update },
                    LoadAction::PlaceTerrain { spawn_entities: entities, all_neighbours: !is_update },
                )
            }
        },
        (LoadStage::TerrainInWorld { is_update }, LoadEvent::AreasDiscovered { above }) => (
            LoadStage::AreasFound { is_update },
            LoadAction::PlaceGraph { update_above: above, keep_hashes: is_update },
        ),
        (LoadStage::AreasFound { is_update: _ }, LoadEvent::GraphPlaced { found }) => {
            if found {
                (LoadStage::DoneInIsolation, LoadAction::LinkNeighbours)
            } else {
                (LoadStage::Done, LoadAction::Stop)
            }
        },
        (LoadStage::DoneInIsolation, LoadEvent::Linked) => (LoadStage::Done, LoadAction::MarkDone),
        _ => (stage, LoadAction::Nothing),
    }
}

/// How far loading has come: the stages in order.
pub open spec fn stage_rank(stage: LoadStage) -> int {
    match stage {
        LoadStage::Requested { .. } => 0,
        LoadStage::TerrainInWorld { .. } => 1,
        LoadStage::AreasFound { .. } => 2,
        LoadStage::DoneInIsolation => 3,
        LoadStage::Done => 4,
    }
}

/// Loading only moves forward: every step that does something moves to a later stage, and one
/// that does nothing stays.
pub proof fn lemma_load_moves_forward(stage: LoadStage, event: LoadEvent)
    ensures
        ({
            let (next, action) = load_step_spec(stage, event);
            &&& action != LoadAction::Nothing ==> stage_rank(stage) < stage_rank(next)
            &&& action == LoadAction::Nothing ==> next == stage
        }),
{
}

/// Entities are spawned only when the slab came with some, and only from new or changed
/// terrain that is still there; an update whose slab is gone stops before doing anything.
pub proof fn lemma_load_spawns_and_stops(is_update: bool, found: bool, entities: bool)
    ensures
        ({
            let (next, action) = load_step_spec(LoadStage::Requested { is_update }, LoadEvent::TerrainReady { found, entities });
            &&& (action matches LoadAction::PlaceTerrain { spawn_entities, .. } ==> spawn_entities == entities)
            &&& (is_update && !found) <==> (next == LoadStage::Done && action == LoadAction::Stop)
        }),
{
}

} // verus!

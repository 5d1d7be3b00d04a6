//! Entities, movement inputs and world-state snapshots.
//!
//! Positions are fixed-point integers in thousandths of a display unit.
//! A movement input carries a signed press duration in milliseconds
//! (negative = move left, positive = move right); integrating an input moves
//! the entity by `press_time * speed`, saturating at the `i64` range.

use vstd::prelude::*;

verus! {

/// Movement speed of every entity, in position units per millisecond of
/// press time (one position unit is a thousandth of a display unit, so this
/// equals 40 display units per second of press time).
pub const ENTITY_SPEED: i64 = 40000;

/// Display position of entity id 0, in position units.
pub const BASE_POSITION: i64 = 40000;

/// Horizontal spacing between the spawn points of consecutive entity ids,
/// in position units.
pub const POSITION_SPACING: i64 = 100000;

/// A timestamped, sequenced player intent: the unit of prediction and replay.
#[derive(Clone, Copy, PartialEq, Eq, Structural, Debug)]
pub struct MovementInput {
    /// Signed press duration in milliseconds: negative moves left,
    /// positive moves right.
    pub press_time: i64,
    /// The entity this intent steers.
    pub entity_id: u32,
    /// Monotonic per-client sequence number, starting at 0.
    pub input_sequence_number: u32,
}

/// One per-entity sample inside a world-state snapshot.
#[derive(Clone, Copy, PartialEq, Eq, Structural, Debug)]
pub struct WorldStateEntry {
    pub entity_id: u32,
    /// Authoritative position, in position units.
    pub position: i64,
    /// Sequence number of the last input the server has applied for this
    /// entity, or `None` when no input has been processed yet.
    pub last_processed_input: Option<u32>,
}

/// An authoritative broadcast of all entity positions plus per-entity
/// acknowledgment markers.
#[derive(Clone, Debug)]
pub struct WorldStateMessage {
    pub world_state: Vec<WorldStateEntry>,
}

/// A payload travelling across the simulated link.
#[derive(Clone, Debug)]
pub enum Message {
    Movement(MovementInput),
    WorldState(WorldStateMessage),
}

/// Mathematical value of a [`Message`]: the snapshot's entries become a `Seq`.
#[verifier::ext_equal]
pub ghost enum MessageModel {
    Movement(MovementInput),
    WorldState(Seq<WorldStateEntry>),
}

impl View for Message {
    type V = MessageModel;

    open spec fn view(&self) -> MessageModel {
        match self {
            Message::Movement(input) => MessageModel::Movement(*input),
            Message::WorldState(snapshot) => MessageModel::WorldState(snapshot.world_state@),
        }
    }
}

/// An actor: authoritative on the server, a locally-simulated copy on each
/// client.
#[derive(Clone, Debug)]
pub struct Entity {
    /// Current position, in position units.
    pub x: i64,
    /// Movement speed, in position units per millisecond of press time.
    pub speed: i64,
    pub entity_id: u32,
    /// Timestamped authoritative samples `(observed_time, position)` kept for
    /// interpolating a remote entity; unused for locally-controlled entities.
    pub position_buffer: Vec<(u64, i64)>,
}

/// Mathematical value of an [`Entity`].
#[verifier::ext_equal]
pub ghost struct EntityModel {
    pub x: i64,
    pub speed: i64,
    pub entity_id: u32,
    pub position_buffer: Seq<(u64, i64)>,
}

impl View for Entity {
    type V = EntityModel;

    open spec fn view(&self) -> EntityModel {
        EntityModel {
            x: self.x,
            speed: self.speed,
            entity_id: self.entity_id,
            position_buffer: self.position_buffer@,
        }
    }
}

/// Whether an unbounded integer fits the `i64` range.
pub open spec fn i64_range(x: int) -> bool {
    i64::MIN as int <= x <= i64::MAX as int
}

/// Restricts an unbounded integer to the `i64` range by saturation.
pub open spec fn clip_to_i64(x: int) -> int {
    if x > i64::MAX as int {
        i64::MAX as int
    } else if x < i64::MIN as int {
        i64::MIN as int
    } else {
        x
    }
}

/// Position reached by integrating one press duration at the given speed,
/// saturating at the representable range.
pub open spec fn integrated_position(pos: int, press_time: i64, speed: i64) -> int {
    clip_to_i64(pos + press_time * speed)
}

/// Position reached by integrating a sequence of inputs in order, starting
/// from `pos`.
pub open spec fn replayed_position(pos: int, speed: i64, inputs: Seq<MovementInput>) -> int
    decreases inputs.len(),
{
    if inputs.len() <= 0 {
        pos
    } else {
        replayed_position(integrated_position(pos, inputs[0].press_time, speed), speed, inputs.skip(1))
    }
}

/// Spawn state of a fresh entity: entities are laid out left to right by id.
pub open spec fn spec_new_entity(entity_id: u32) -> EntityModel {
    EntityModel {
        x: (BASE_POSITION + entity_id * POSITION_SPACING) as i64,
        speed: ENTITY_SPEED,
        entity_id,
        position_buffer: Seq::empty(),
    }
}

/// `pos + press_time * speed`, saturating at the `i64` range.
pub fn integrate_position(pos: i64, press_time: i64, speed: i64) -> (r: i64)
    ensures
        r as int == integrated_position(pos as int, press_time, speed),
{
    proof {
        assert(i64::MIN as int * i64::MAX as int <= (press_time as int) * (speed as int)
            <= i64::MIN as int * i64::MIN as int) by (nonlinear_arith)
            requires
                i64::MIN as int <= press_time as int <= i64::MAX as int,
                i64::MIN as int <= speed as int <= i64::MAX as int,
        ;
    }
    let delta: i128 = (press_time as i128) * (speed as i128);
    let sum: i128 = (pos as i128) + delta;
    if sum > i64::MAX as i128 {
        i64::MAX
    } else if sum < i64::MIN as i128 {
        i64::MIN
    } else {
        sum as i64
    }
}

/// Mathematical values of a roster of entities.
pub open spec fn entity_models(s: Seq<Entity>) -> Seq<EntityModel> {
    s.map_values(|e: Entity| e@)
}

/// Whether the roster holds an entity with the given id.
pub open spec fn entity_found(s: Seq<EntityModel>, id: u32) -> bool {
    exists|i: int| 0 <= i < s.len() && s[i].entity_id == id
}

/// Index of the first entity with the given id; `s.len()` when there is
/// none.
pub open spec fn entity_index(s: Seq<EntityModel>, id: u32) -> int
    decreases s.len(),
{
    if s.len() <= 0 {
        0
    } else if s[0].entity_id == id {
        0
    } else {
        1 + entity_index(s.skip(1), id)
    }
}

/// The first entity with a present id really has that id, and nothing
/// before it does.
pub proof fn lemma_entity_index(s: Seq<EntityModel>, id: u32)
    requires
        entity_found(s, id),
    ensures
        0 <= entity_index(s, id) < s.len(),
        s[entity_index(s, id)].entity_id == id,
        forall|j: int| 0 <= j < entity_index(s, id) ==> s[j].entity_id != id,
    decreases s.len(),
{
    if s[0].entity_id != id {
        let w: int = choose|i: int| 0 <= i < s.len() && s[i].entity_id == id;
        assert(s.skip(1)[w - 1] == s[w]);
        lemma_entity_index(s.skip(1), id);
        assert(forall|j: int| 1 <= j < entity_index(s, id) ==> s[j] == s.skip(1)[j - 1]);
    }
}

/// The first-match characterization pins the index: an id found at `i` and
/// nowhere earlier is found exactly at `i`.
pub proof fn lemma_entity_index_unique(s: Seq<EntityModel>, id: u32, i: int)
    requires
        0 <= i < s.len(),
        s[i].entity_id == id,
        forall|j: int| 0 <= j < i ==> s[j].entity_id != id,
    ensures
        entity_index(s, id) == i,
    decreases s.len(),
{
    if i > 0 {
        assert(s[0].entity_id != id);
        assert(s.skip(1)[i - 1] == s[i]);
        assert(forall|j: int| 0 <= j < i - 1 ==> s.skip(1)[j] == s[j + 1]);
        lemma_entity_index_unique(s.skip(1), id, i - 1);
    }
}

/// Replay cannot escape the representable range: every step saturates.
pub proof fn lemma_replayed_in_range(pos: int, speed: i64, inputs: Seq<MovementInput>)
    requires
        i64_range(pos),
    ensures
        i64_range(replayed_position(pos, speed, inputs)),
    decreases inputs.len(),
{
    if inputs.len() > 0 {
        lemma_replayed_in_range(
            integrated_position(pos, inputs[0].press_time, speed),
            speed,
            inputs.skip(1),
        );
    }
}

/// Appending an entity with an absent id puts it at the looked-up index.
pub proof fn lemma_entity_index_push(s: Seq<EntityModel>, e: EntityModel)
    requires
        !entity_found(s, e.entity_id),
    ensures
        entity_found(s.push(e), e.entity_id),
        entity_index(s.push(e), e.entity_id) == s.len(),
    decreases s.len(),
{
    let t = s.push(e);
    assert(t[s.len() as int] == e);
    if s.len() > 0 {
        assert(!entity_found(s.skip(1), e.entity_id)) by {
            assert(forall|i: int|
                0 <= i < s.skip(1).len() ==> #[trigger] s.skip(1)[i] == s[i + 1]);
        }
        lemma_entity_index_push(s.skip(1), e);
        assert(t.skip(1) =~= s.skip(1).push(e));
        assert(t[0] == s[0]);
        assert(s[0].entity_id != e.entity_id);
    }
}

/// Finds the position of the entity with the given id in the roster.
pub fn find_entity(entities: &Vec<Entity>, id: u32) -> (r: Option<usize>)
    ensures
        entity_found(entity_models(entities@), id) ==> r == Some(
            entity_index(entity_models(entities@), id) as usize,
        ),
        !entity_found(entity_models(entities@), id) ==> r is None,
{
    let ghost ms = entity_models(entities@);
    let n = entities.len();
    let mut i: usize = 0;
    while i < n
        invariant
            0 <= i <= n,
            n == entities@.len(),
            ms == entity_models(entities@),
            forall|k: int| 0 <= k < i ==> ms[k].entity_id != id,
        decreases n - i,
    {
        if entities[i].entity_id == id {
            proof {
                assert(ms[i as int].entity_id == id);
                lemma_entity_index(ms, id);
                let j: int = entity_index(ms, id);
                if j < i {
                    assert(ms[j].entity_id == id);
                }
                if i < j {
                    assert(ms[i as int].entity_id != id);
                }
            }
            return Some(i);
        }
        i += 1;
    }
    proof {
        assert(!entity_found(ms, id));
    }
    None
}

impl Entity {
    /// A fresh entity at its id-determined spawn position.
    pub fn new(entity_id: u32) -> (e: Entity)
        ensures
            e@ == spec_new_entity(entity_id),
    {
        Entity {
            x: BASE_POSITION + (entity_id as i64) * POSITION_SPACING,
            speed: ENTITY_SPEED,
            entity_id,
            position_buffer: Vec::new(),
        }
    }

    /// Integrates one movement input into the entity's position.
    pub fn applyInput(&mut self, input: MovementInput)
        ensures
            final(self)@ == (EntityModel {
                x: integrated_position(old(self).x as int, input.press_time, old(self).speed) as i64,
                ..old(self)@
            }),
    {
        self.x = integrate_position(self.x, input.press_time, self.speed);
    }
}

} // verus!

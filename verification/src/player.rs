//! The participant record, the damage rule and the health-tier ladder.
//!
//! Coordinates and angles are single-precision values. The record carries each
//! of them as its IEEE-754 bit pattern, so that a record can be compared,
//! copied and put on the wire without any rounding; arithmetic on them is the
//! caller's business.

use vstd::prelude::*;

verus! {

/// Health a participant starts with.
pub const INITIAL_HEALTH: i32 = 1000;

/// Health taken away by one projectile impact.
pub const HIT_DAMAGE: i32 = 200;

/// The synchronized state of one participant.
pub struct Player {
    /// Identity, fixed when the connection is made.
    pub id: String,
    /// Bit patterns of the x and y coordinates.
    pub position: (u32, u32),
    /// Bit pattern of the aim angle, in radians.
    pub angle: u32,
    /// True only in the record of the tick on which a shot was fired.
    pub just_shot: bool,
    /// Remaining health.
    pub current_health: i32,
}

/// What a `Player` is, with the identity as a sequence of characters.
pub struct PlayerView {
    pub id: Seq<char>,
    pub position: (u32, u32),
    pub angle: u32,
    pub just_shot: bool,
    pub current_health: i32,
}

impl View for Player {
    type V = PlayerView;

    open spec fn view(&self) -> PlayerView {
        PlayerView {
            id: self.id@,
            position: self.position,
            angle: self.angle,
            just_shot: self.just_shot,
            current_health: self.current_health,
        }
    }
}

/// The record of a participant that has just come into being at `position`:
/// aim angle zero, no shot fired, full health.
pub open spec fn spawned(id: Seq<char>, position: (u32, u32)) -> PlayerView {
    PlayerView { id, position, angle: 0, just_shot: false, current_health: 1000 }
}

/// The record the relay files for a new connection: spawned at the origin.
pub open spec fn fresh(id: Seq<char>) -> PlayerView {
    spawned(id, (0, 0))
}

/// Health after one impact: a living participant loses 200, a dead one is
/// left as it is.
pub open spec fn health_after_hit(health: int) -> int {
    if health > 0 {
        health - 200
    } else {
        health
    }
}

/// Health after `hits` impacts in a row.
pub open spec fn health_after_hits(health: int, hits: nat) -> int
    decreases hits,
{
    if hits == 0 {
        health
    } else {
        health_after_hits(health_after_hit(health), (hits - 1) as nat)
    }
}

/// The values health passes through under the fixed damage of 200:
/// 1000, 800, 600, 400, 200 and 0.
pub open spec fn is_health_tier(health: int) -> bool {
    0 <= health <= 1000 && health % 200 == 0
}

impl Player {
    /// A new participant at `position`, with aim angle zero, no shot fired
    /// and full health.
    pub fn spawn(id: String, position: (u32, u32)) -> (player: Player)
        ensures
            player@ == spawned(id@, position),
    {
        Player { id, position, angle: 0, just_shot: false, current_health: INITIAL_HEALTH }
    }

    /// The record the relay files for a new connection.
    pub fn new(id: String) -> (player: Player)
        ensures
            player@ == fresh(id@),
    {
        Player::spawn(id, (0, 0))
    }

    /// Applies one projectile impact. Returns whether health was taken; a
    /// participant whose health is not positive is left unchanged.
    pub fn take_hit(&mut self) -> (damaged: bool)
        ensures
            damaged == (old(self).current_health > 0),
            final(self).current_health == health_after_hit(old(self).current_health as int),
            final(self)@ == (PlayerView {
                current_health: final(self).current_health,
                ..old(self)@
            }),
    {
        if self.current_health > 0 {
            self.current_health = self.current_health - HIT_DAMAGE;
            true
        } else {
            false
        }
    }

    /// True when the participant has no health left.
    pub fn is_dead(&self) -> (dead: bool)
        ensures
            dead == (self.current_health <= 0),
    {
        self.current_health <= 0
    }
}

impl Clone for Player {
    fn clone(&self) -> (copy: Player)
        ensures
            copy@ == self@,
    {
        Player {
            id: self.id.clone(),
            position: self.position,
            angle: self.angle,
            just_shot: self.just_shot,
            current_health: self.current_health,
        }
    }
}

/// Damage never raises health, and on the tier ladder it never takes health
/// below zero: from a tier value one impact leads to a tier value again, the
/// next lower one unless health was already zero.
pub proof fn lemma_hit_stays_on_ladder(health: int)
    requires
        is_health_tier(health),
    ensures
        is_health_tier(health_after_hit(health)),
        0 <= health_after_hit(health) <= health,
        health > 0 ==> health_after_hit(health) == health - 200,
        health == 0 ==> health_after_hit(health) == 0,
{
}

/// Whatever the health and however many impacts follow one another, health
/// never rises; from a tier value it stays on the ladder and never drops
/// below zero.
pub proof fn lemma_hits_never_raise_health(health: int, hits: nat)
    ensures
        health_after_hits(health, hits) <= health,
        is_health_tier(health) ==> is_health_tier(health_after_hits(health, hits)),
        is_health_tier(health) ==> health_after_hits(health, hits) >= 0,
    decreases hits,
{
    if hits > 0 {
        lemma_hits_never_raise_health(health_after_hit(health), (hits - 1) as nat);
    }
}

/// One more impact after `hits` of them is one impact applied to their
/// outcome.
pub proof fn lemma_hits_step(health: int, hits: nat)
    ensures
        health_after_hits(health, hits + 1) == health_after_hit(health_after_hits(health, hits)),
    decreases hits,
{
    if hits > 0 {
        lemma_hits_step(health_after_hit(health), (hits - 1) as nat);
        assert(health_after_hits(health, hits + 1) == health_after_hits(
            health_after_hit(health),
            hits,
        ));
    } else {
        assert(health_after_hits(health, 1) == health_after_hits(health_after_hit(health), 0));
    }
}

/// The health indicator that is shown for a participant.
#[derive(Clone, Copy, Debug, PartialEq, Eq, Structural)]
pub struct PlayerHealthBar {
    /// The health the indicator stands for.
    pub current_health: i32,
    /// Width of the indicator.
    pub width: u32,
}

/// What a change of health asks of the indicator.
#[derive(Clone, Copy, Debug, PartialEq, Eq, Structural)]
pub enum HealthBarUpdate {
    /// Put this indicator in place of the current one.
    Replace(PlayerHealthBar),
    /// Take the indicator away: no health is left.
    Remove,
    /// The health is not a step of the ladder: the indicator stays as it is
    /// and the value is to be reported.
    Unhandled,
}

/// The ladder from health to indicator: 800, 600, 400 and 200 select widths
/// 104, 78, 52 and 26, zero removes the indicator, any other value is
/// unhandled.
pub open spec fn health_bar_for(health: int) -> HealthBarUpdate {
    if health == 800 {
        HealthBarUpdate::Replace(PlayerHealthBar { current_health: 800, width: 104 })
    } else if health == 600 {
        HealthBarUpdate::Replace(PlayerHealthBar { current_health: 600, width: 78 })
    } else if health == 400 {
        HealthBarUpdate::Replace(PlayerHealthBar { current_health: 400, width: 52 })
    } else if health == 200 {
        HealthBarUpdate::Replace(PlayerHealthBar { current_health: 200, width: 26 })
    } else if health == 0 {
        HealthBarUpdate::Remove
    } else {
        HealthBarUpdate::Unhandled
    }
}

/// Selects the health indicator for a health value.
pub fn update_player_health(health: i32) -> (update: HealthBarUpdate)
    ensures
        update == health_bar_for(health as int),
{
    if health == 800 {
        HealthBarUpdate::Replace(PlayerHealthBar { current_health: 800, width: 104 })
    } else if health == 600 {
        HealthBarUpdate::Replace(PlayerHealthBar { current_health: 600, width: 78 })
    } else if health == 400 {
        HealthBarUpdate::Replace(PlayerHealthBar { current_health: 400, width: 52 })
    } else if health == 200 {
        HealthBarUpdate::Replace(PlayerHealthBar { current_health: 200, width: 26 })
    } else if health == 0 {
        HealthBarUpdate::Remove
    } else {
        HealthBarUpdate::Unhandled
    }
}

/// Every value that damage reaches from full health is handled by the ladder,
/// and the widths shrink with health, 13 units for every 100 points.
pub proof fn lemma_ladder_covers_damage(hits: nat)
    requires
        hits >= 1,
    ensures
        health_bar_for(health_after_hits(1000, hits)) != HealthBarUpdate::Unhandled,
        health_after_hits(1000, hits) > 0 ==> health_bar_for(health_after_hits(1000, hits))
            == HealthBarUpdate::Replace(
            PlayerHealthBar {
                current_health: health_after_hits(1000, hits) as i32,
                width: (health_after_hits(1000, hits) * 13 / 100) as u32,
            },
        ),
        health_after_hits(1000, hits) <= 0 ==> health_bar_for(health_after_hits(1000, hits))
            == HealthBarUpdate::Remove,
{
    lemma_hits_never_raise_health(1000, hits);
    lemma_hits_never_raise_health(800, (hits - 1) as nat);
    assert(health_after_hits(1000, hits) == health_after_hits(800, (hits - 1) as nat));
    let h = health_after_hits(1000, hits);
    assert(is_health_tier(h));
    assert(h <= 800);
    assert(h == 0 || h == 200 || h == 400 || h == 600 || h == 800);
}

/// The four directions, as keys held down or as sides on which the
/// participant has room left before the edge of the map.
#[derive(Clone, Copy, Debug, PartialEq, Eq, Structural)]
pub struct Directions {
    pub up: bool,
    pub down: bool,
    pub left: bool,
    pub right: bool,
}

/// One step along an axis: forward where only the forward move is taken,
/// backward where only the backward move is, none where both or neither are.
pub open spec fn axis_step(forward: bool, backward: bool) -> int {
    (if forward {
        1int
    } else {
        0int
    }) - (if backward {
        1int
    } else {
        0int
    })
}

/// The direction in which the participant moves this tick, as steps along x
/// and y: a key moves it only where there is room on that side, and opposite
/// moves cancel.
pub fn player_movement(keys: Directions, room: Directions) -> (direction: (i8, i8))
    ensures
        direction.0 == axis_step(keys.right && room.right, keys.left && room.left),
        direction.1 == axis_step(keys.up && room.up, keys.down && room.down),
{
    let mut x: i8 = 0;
    let mut y: i8 = 0;
    if keys.up && room.up {
        y = y + 1;
    }
    if keys.down && room.down {
        y = y - 1;
    }
    if keys.left && room.left {
        x = x - 1;
    }
    if keys.right && room.right {
        x = x + 1;
    }
    (x, y)
}

} // verus!

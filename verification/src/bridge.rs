//! A single bridge: a typed, weighted connection between two consciousnesses.
//!
//! Strength is a fixed-point number counted in billionths: 0 is no
//! connection, [`STRENGTH_SCALE`] is full strength (1.0).

use vstd::prelude::*;

use crate::identity::{BridgeType, ConsciousnessId};

verus! {

/// The fixed-point unit: this many billionths make 1.0.
pub const STRENGTH_SCALE: i64 = 1_000_000_000;

/// The strength a new bridge starts with (0.5).
pub const INITIAL_STRENGTH: i64 = 500_000_000;

/// A bridge is active while its strength exceeds this (0.1).
pub const ACTIVE_THRESHOLD: i64 = 100_000_000;

/// `x` clamped to the range `[0, STRENGTH_SCALE]`.
pub open spec fn clamp_strength(x: int) -> int {
    if x < 0 {
        0
    } else if x > STRENGTH_SCALE {
        STRENGTH_SCALE as int
    } else {
        x
    }
}

/// A connection between two consciousnesses.
#[derive(Debug)]
pub struct Bridge {
    pub id: String,
    pub from: ConsciousnessId,
    pub to: ConsciousnessId,
    pub bridge_type: BridgeType,
    /// In billionths: `STRENGTH_SCALE` is 1.0.
    pub strength: i64,
    pub established_tick: u64,
    pub interactions: u64,
    pub last_interaction: u64,
}

impl Clone for Bridge {
    fn clone(&self) -> (r: Self)
        ensures
            r == *self,
    {
        Bridge {
            id: self.id.clone(),
            from: self.from.clone(),
            to: self.to.clone(),
            bridge_type: self.bridge_type,
            strength: self.strength,
            established_tick: self.established_tick,
            interactions: self.interactions,
            last_interaction: self.last_interaction,
        }
    }
}

impl Bridge {
    /// `b` after one reinforcement by `amount`: strength clamped to
    /// `[0, STRENGTH_SCALE]`, one more interaction, nothing else changed.
    pub open spec fn spec_reinforced(b: Bridge, amount: int) -> Bridge {
        Bridge {
            strength: clamp_strength(b.strength + amount) as i64,
            interactions: (b.interactions + 1) as u64,
            ..b
        }
    }

    /// Strengthen the bridge by `amount` (clamped to `[0, STRENGTH_SCALE]`).
    pub fn reinforce(&mut self, amount: i64)
        requires
            old(self).interactions < u64::MAX,
        ensures
            *final(self) == Bridge::spec_reinforced(*old(self), amount as int),
            0 <= final(self).strength <= STRENGTH_SCALE,
    {
        let sum: i128 = self.strength as i128 + amount as i128;
        let clamped: i64 = if sum < 0 {
            0
        } else if sum > STRENGTH_SCALE as i128 {
            STRENGTH_SCALE
        } else {
            sum as i64
        };
        self.strength = clamped;
        self.interactions = self.interactions + 1;
    }

    /// Weaken the bridge by `rate` over time without interaction.
    /// Strength never goes below 0.
    pub fn decay(&mut self, rate: i64)
        requires
            old(self).strength - rate <= i64::MAX,
        ensures
            *final(self) == (Bridge {
                strength: (if old(self).strength - rate < 0 {
                    0
                } else {
                    old(self).strength - rate
                }) as i64,
                ..*old(self)
            }),
            final(self).strength >= 0,
    {
        let diff: i128 = self.strength as i128 - rate as i128;
        let floored: i64 = if diff < 0 {
            0
        } else {
            diff as i64
        };
        self.strength = floored;
    }

    /// A bridge is active if its strength exceeds 0.1.
    pub fn is_active(&self) -> (r: bool)
        ensures
            r == (self.strength > ACTIVE_THRESHOLD),
    {
        self.strength > ACTIVE_THRESHOLD
    }
}

} // verus!

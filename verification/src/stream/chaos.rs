//! A network that loses, repeats, reorders and delays frames on purpose.

use crate::error::{Error, Percentage};
use crate::time::Duration;
use crate::vwp::VwpFrameType;
use vstd::prelude::*;

verus! {

/// The generator's multiplier.
pub const MULTIPLIER: u64 = 6364136223846793005;

/// The state that stands in for a seed of zero.
pub const DEFAULT_SEED: u64 = 0xA5A5_1337_55AA_F00D;

/// Which frames are treated badly.
#[derive(Debug, Clone, Copy)]
pub enum ChaosScope {
    DataOnly,
    AllFrames,
}

/// How badly frames are treated.
#[derive(Debug, Clone, Copy)]
pub struct ChaosConfig {
    pub drop_data_pct: u8,
    pub drop_control_pct: u8,
    pub drop_ack_pct: u8,
    pub duplicate_pct: u8,
    pub reorder_pct: u8,
    pub jitter_ms: u16,
    pub scope: ChaosScope,
}

impl ChaosConfig {
    /// The first percentage that is above one hundred.
    pub open spec fn first_too_large(self) -> Option<(Percentage, u8)> {
        if self.drop_data_pct > 100 {
            Some((Percentage::DropData, self.drop_data_pct))
        } else if self.drop_control_pct > 100 {
            Some((Percentage::DropControl, self.drop_control_pct))
        } else if self.drop_ack_pct > 100 {
            Some((Percentage::DropAck, self.drop_ack_pct))
        } else if self.duplicate_pct > 100 {
            Some((Percentage::Duplicate, self.duplicate_pct))
        } else if self.reorder_pct > 100 {
            Some((Percentage::Reorder, self.reorder_pct))
        } else {
            None
        }
    }

    /// The configuration, if no percentage is above one hundred.
    pub fn validate(self) -> (r: Result<Self, Error>)
        ensures
            match r {
                Ok(config) => config == self && self.first_too_large() is None,
                Err(e) => self.first_too_large() matches Some((which, value)) && e
                    == (Error::PercentageTooLarge { which, value }),
            },
    {
        if self.drop_data_pct > 100 {
            return Err(
                Error::PercentageTooLarge {
                    which: Percentage::DropData,
                    value: self.drop_data_pct,
                },
            );
        }
        if self.drop_control_pct > 100 {
            return Err(
                Error::PercentageTooLarge {
                    which: Percentage::DropControl,
                    value: self.drop_control_pct,
                },
            );
        }
        if self.drop_ack_pct > 100 {
            return Err(
                Error::PercentageTooLarge { which: Percentage::DropAck, value: self.drop_ack_pct },
            );
        }
        if self.duplicate_pct > 100 {
            return Err(
                Error::PercentageTooLarge {
                    which: Percentage::Duplicate,
                    value: self.duplicate_pct,
                },
            );
        }
        if self.reorder_pct > 100 {
            return Err(
                Error::PercentageTooLarge { which: Percentage::Reorder, value: self.reorder_pct },
            );
        }
        Ok(self)
    }

    /// Whether frames of this type are treated badly at all.
    pub open spec fn in_scope(self, frame_type: VwpFrameType) -> bool {
        match self.scope {
            ChaosScope::DataOnly => frame_type == VwpFrameType::Data,
            ChaosScope::AllFrames => true,
        }
    }

    /// How many of a hundred frames of this type are to be lost.
    pub open spec fn drop_pct(self, frame_type: VwpFrameType) -> u8 {
        match frame_type {
            VwpFrameType::Data => self.drop_data_pct,
            VwpFrameType::Control => self.drop_control_pct,
            VwpFrameType::Ack => self.drop_ack_pct,
        }
    }
}

/// The state of the generator after `state`.
pub open spec fn next_state(state: u64) -> u64 {
    ((state * MULTIPLIER + 1) % 0x1_0000_0000_0000_0000) as u64
}

/// The number below `bound` that is drawn in a state: from its upper half.
pub open spec fn sample(state: u64, bound: int) -> int {
    (state as int / 0x1_0000_0000) % bound
}

/// A network that misbehaves as configured, in a way that depends only on its seed and on what
/// it was asked.
pub struct DirtyNetwork {
    config: ChaosConfig,
    state: u64,
}

/// A misbehaving network as the contracts see it.
pub struct NetworkView {
    pub config: ChaosConfig,
    pub state: u64,
}

impl View for DirtyNetwork {
    type V = NetworkView;

    closed spec fn view(&self) -> NetworkView {
        NetworkView { config: self.config, state: self.state }
    }
}

impl NetworkView {
    /// Whether the next draw of a hundred falls below a percentage.
    pub open spec fn rolls(self, pct: u8) -> bool {
        sample(next_state(self.state), 100) < pct
    }

    /// The network once it drew.
    pub open spec fn drawn(self) -> NetworkView {
        NetworkView { state: next_state(self.state), ..self }
    }

    /// What the network answers when a thing happens to `pct` of a hundred frames of a type, and
    /// the network afterwards: it draws only where the answer is not given.
    pub open spec fn chance(self, frame_type: VwpFrameType, pct: u8) -> (bool, NetworkView) {
        if !self.config.in_scope(frame_type) || pct == 0 {
            (false, self)
        } else {
            (self.rolls(pct), self.drawn())
        }
    }
}

impl DirtyNetwork {
    /// A network with this configuration. A seed of zero stands for another one.
    pub fn new(config: ChaosConfig, seed: u64) -> (r: Result<Self, Error>)
        ensures
            match r {
                Ok(network) => config.first_too_large() is None && network@ == (NetworkView {
                    config,
                    state: if seed == 0 {
                        DEFAULT_SEED
                    } else {
                        seed
                    },
                }),
                Err(e) => config.first_too_large() matches Some((which, value)) && e
                    == (Error::PercentageTooLarge { which, value }),
            },
    {
        match config.validate() {
            Ok(config) => Ok(
                DirtyNetwork {
                    config,
                    state: if seed == 0 {
                        DEFAULT_SEED
                    } else {
                        seed
                    },
                },
            ),
            Err(e) => Err(e),
        }
    }

    /// Whether this frame is to be lost.
    pub fn should_drop(&mut self, frame_type: VwpFrameType) -> (drop: bool)
        ensures
            (drop, final(self)@) == old(self)@.chance(
                frame_type,
                old(self)@.config.drop_pct(frame_type),
            ),
    {
        if !self.is_in_scope(frame_type) {
            return false;
        }
        let pct: u8 = match frame_type {
            VwpFrameType::Data => self.config.drop_data_pct,
            VwpFrameType::Control => self.config.drop_control_pct,
            VwpFrameType::Ack => self.config.drop_ack_pct,
        };
        if pct == 0 {
            return false;
        }
        self.roll_pct(pct)
    }

    /// Whether this frame is to be sent twice.
    pub fn should_duplicate(&mut self, frame_type: VwpFrameType) -> (duplicate: bool)
        ensures
            (duplicate, final(self)@) == old(self)@.chance(
                frame_type,
                old(self)@.config.duplicate_pct,
            ),
    {
        if !self.is_in_scope(frame_type) || self.config.duplicate_pct == 0 {
            return false;
        }
        self.roll_pct(self.config.duplicate_pct)
    }

    /// Whether this frame is to change places with another.
    pub fn should_reorder(&mut self, frame_type: VwpFrameType) -> (reorder: bool)
        ensures
            (reorder, final(self)@) == old(self)@.chance(frame_type, old(self)@.config.reorder_pct),
    {
        if !self.is_in_scope(frame_type) || self.config.reorder_pct == 0 {
            return false;
        }
        self.roll_pct(self.config.reorder_pct)
    }

    /// How long this frame is to be held back: up to the jitter, in whole milliseconds.
    pub fn jitter_delay(&mut self, frame_type: VwpFrameType) -> (delay: Option<Duration>)
        ensures
            if !old(self)@.config.in_scope(frame_type) || old(self)@.config.jitter_ms == 0 {
                delay is None && final(self)@ == old(self)@
            } else {
                &&& final(self)@ == old(self)@.drawn()
                &&& delay matches Some(span) && span.nanos == sample(
                    next_state(old(self)@.state),
                    old(self)@.config.jitter_ms + 1,
                ) * 1_000_000
            },
            delay matches Some(span) ==> span.nanos <= old(self)@.config.jitter_ms * 1_000_000
                && span.nanos % 1_000_000 == 0,
    {
        if !self.is_in_scope(frame_type) || self.config.jitter_ms == 0 {
            return None;
        }
        let upper: u32 = self.config.jitter_ms as u32;
        let drawn: u32 = self.draw() % (upper + 1);
        Some(Duration::from_millis(drawn as u64))
    }

    /// Whether frames of this type are treated badly at all.
    fn is_in_scope(&self, frame_type: VwpFrameType) -> (in_scope: bool)
        ensures
            in_scope == self@.config.in_scope(frame_type),
    {
        match self.config.scope {
            ChaosScope::DataOnly => frame_type == VwpFrameType::Data,
            ChaosScope::AllFrames => true,
        }
    }

    /// Moves the generator on and draws the upper half of its state.
    fn draw(&mut self) -> (drawn: u32)
        ensures
            final(self)@ == old(self)@.drawn(),
            drawn == next_state(old(self)@.state) as int / 0x1_0000_0000,
    {
        let ghost product = self.state * MULTIPLIER;
        self.state = self.state.wrapping_mul(MULTIPLIER).wrapping_add(1);
        let state = self.state;
        proof {
            vstd::arithmetic::div_mod::lemma_add_mod_noop(product, 1, 0x1_0000_0000_0000_0000);
            assert((state >> 32) == state / 0x1_0000_0000) by (bit_vector);
        }
        (state >> 32) as u32
    }

    /// Whether a draw of a hundred falls below a percentage. For zero nothing is drawn.
    fn roll_pct(&mut self, pct: u8) -> (hit: bool)
        ensures
            pct == 0 ==> !hit && final(self)@ == old(self)@,
            pct > 0 ==> hit == old(self)@.rolls(pct) && final(self)@ == old(self)@.drawn(),
    {
        if pct == 0 {
            return false;
        }
        self.draw() % 100 < pct as u32
    }
}

/// What is to happen to all frames of a type happens to each, what is to happen to none happens
/// to none, and frames out of scope are left alone, in every state.
pub proof fn law_chance_is_certain_at_the_ends(
    network: NetworkView,
    frame_type: VwpFrameType,
    pct: u8,
)
    ensures
        pct == 100 && network.config.in_scope(frame_type) ==> network.chance(frame_type, pct).0,
        pct == 0 || !network.config.in_scope(frame_type) ==> network.chance(frame_type, pct) == (
            false,
            network,
        ),
{
}

/// A percentage that is raised can only turn a frame's fate from good to bad.
pub proof fn law_chance_grows_with_the_percentage(
    network: NetworkView,
    frame_type: VwpFrameType,
    low: u8,
    high: u8,
)
    requires
        low <= high,
    ensures
        network.chance(frame_type, low).0 ==> network.chance(frame_type, high).0,
{
}

/// A configuration is good just where no percentage is above one hundred; else the first that is, in
/// the order of data, control, acknowledgements, copies and changed places, is named.
pub proof fn law_percentages_are_bounded(config: ChaosConfig)
    ensures
        ({
            let first = config.first_too_large();
            let d = config.drop_data_pct;
            let c = config.drop_control_pct;
            let a = config.drop_ack_pct;
            let u = config.duplicate_pct;
            let o = config.reorder_pct;
            &&& first is None <==> d <= 100 && c <= 100 && a <= 100 && u <= 100 && o <= 100
            &&& d > 100 ==> first == Some((Percentage::DropData, d))
            &&& d <= 100 && c > 100 ==> first == Some((Percentage::DropControl, c))
            &&& d <= 100 && c <= 100 && a > 100 ==> first == Some((Percentage::DropAck, a))
            &&& d <= 100 && c <= 100 && a <= 100 && u > 100 ==> first == Some(
                (Percentage::Duplicate, u),
            )
            &&& d <= 100 && c <= 100 && a <= 100 && u <= 100 && o > 100 ==> first == Some(
                (Percentage::Reorder, o),
            )
        }),
{
}

/// Frames of each type are lost as often as is configured for that type. In the narrower scope only
/// data frames are treated badly, in the wider one all are.
pub proof fn law_each_frame_type_has_its_own(config: ChaosConfig, frame_type: VwpFrameType)
    ensures
        config.drop_pct(VwpFrameType::Data) == config.drop_data_pct,
        config.drop_pct(VwpFrameType::Control) == config.drop_control_pct,
        config.drop_pct(VwpFrameType::Ack) == config.drop_ack_pct,
        config.scope is AllFrames ==> config.in_scope(frame_type),
        config.scope is DataOnly ==> (config.in_scope(frame_type) <==> frame_type
            == VwpFrameType::Data),
{
}

/// A frame in scope meets its fate where the upper half of the generator's next state, by one
/// hundred, leaves less than the percentage. The generator then has moved on, and nothing else has
/// changed; where nothing is to be decided it has not moved.
pub proof fn law_fate_is_drawn(network: NetworkView, frame_type: VwpFrameType, pct: u8)
    ensures
        ({
            let (hit, after) = network.chance(frame_type, pct);
            let next = (network.state * 6364136223846793005 + 1) % 0x1_0000_0000_0000_0000;
            &&& after.config == network.config
            &&& network.config.in_scope(frame_type) && pct > 0 ==> after.state == next && (hit <==> (
            next / 0x1_0000_0000) % 100 < pct)
            &&& !network.config.in_scope(frame_type) || pct == 0 ==> after == network && !hit
        }),
{
}

/// A frame is never held back for longer than the jitter.
pub proof fn law_jitter_is_bounded(state: u64, jitter_ms: u16)
    ensures
        0 <= sample(next_state(state), jitter_ms + 1) <= jitter_ms,
{
}

} // verus!

//! Light values and the arithmetic by which light passes from a block to its
//! neighbour.

use vstd::prelude::*;

verus! {

/// Strongest light of either channel.
pub const MAX_LIGHT: u8 = 15;

/// Light at one block: the `heaven` channel carries daylight, the `hearth`
/// channel the light of lamps. Both lie in `0..=15`; no value of this type
/// holds anything else.
#[derive(Copy, Clone, PartialEq, Debug, Eq)]
pub struct LightLevel {
    heaven: u8,
    hearth: u8,
}

/// The intensity `v`, cut down to the strongest light where it exceeds it.
pub open spec fn clamp_light(v: u8) -> u8 {
    if v <= MAX_LIGHT { v } else { MAX_LIGHT }
}

/// Light that a block with daylight `donor` hands to a neighbour. Full
/// daylight falls undiminished on the block directly below; any other light
/// loses one level on the way. A dark donor hands on -1, which no block
/// accepts.
pub open spec fn heaven_donation(donor: LightLevel, from_above: bool) -> int {
    if from_above && donor.heaven() == MAX_LIGHT {
        MAX_LIGHT as int
    } else {
        donor.heaven() - 1
    }
}

/// Lamp light that a block with light `donor` hands to a neighbour: one level
/// less than its own, in every direction.
pub open spec fn hearth_donation(donor: LightLevel) -> int {
    donor.hearth() - 1
}

/// The larger of two intensities.
pub open spec fn max_level(a: int, b: int) -> int {
    if a >= b { a } else { b }
}

impl LightLevel {
    /// Both channels lie in `0..=15`.
    #[verifier::type_invariant]
    pub open spec fn valid(self) -> bool {
        self.heaven() <= MAX_LIGHT && self.hearth() <= MAX_LIGHT
    }

    pub closed spec fn heaven_spec(&self) -> u8 {
        self.heaven
    }

    pub closed spec fn hearth_spec(&self) -> u8 {
        self.hearth
    }

    /// The light with the given channels.
    pub closed spec fn of(heaven: u8, hearth: u8) -> LightLevel {
        LightLevel { heaven, hearth }
    }

    /// No light in either channel.
    pub open spec fn dark_spec() -> LightLevel {
        LightLevel::of(0, 0)
    }

    /// Channel by channel, the stronger of this light and what `donor` hands
    /// on; `from_above` says that the donor stands directly above.
    pub open spec fn raised_by(self, donor: LightLevel, from_above: bool) -> LightLevel {
        LightLevel::of(
            max_level(self.heaven() as int, heaven_donation(donor, from_above)) as u8,
            max_level(self.hearth() as int, hearth_donation(donor)) as u8,
        )
    }

    /// Whether this light needs no repair beside a neighbour that was just
    /// set to `target`: in each channel it is at most one level weaker.
    pub open spec fn satisfied_by(self, target: LightLevel) -> bool {
        self.heaven() + 1 >= target.heaven() && self.hearth() + 1 >= target.hearth()
    }

    /// Levels by which both channels together fall short of the largest
    /// values that the two bytes could hold: a measure that falls whenever a
    /// channel rises.
    pub open spec fn darkness(self) -> nat {
        (2 * u8::MAX - self.heaven() - self.hearth()) as nat
    }

    /// A light value; a channel above 15 is cut down to 15.
    pub fn new(heaven: u8, hearth: u8) -> (l: LightLevel)
        ensures
            l == LightLevel::of(clamp_light(heaven), clamp_light(hearth)),
    {
        LightLevel {
            heaven: if heaven <= MAX_LIGHT { heaven } else { MAX_LIGHT },
            hearth: if hearth <= MAX_LIGHT { hearth } else { MAX_LIGHT },
        }
    }

    /// No light in either channel.
    #[verifier::when_used_as_spec(dark_spec)]
    pub fn dark() -> (l: LightLevel)
        ensures
            l == LightLevel::dark_spec(),
    {
        LightLevel { heaven: 0, hearth: 0 }
    }

    /// Daylight, in `0..=15`.
    #[verifier::when_used_as_spec(heaven_spec)]
    pub fn heaven(&self) -> (r: u8)
        ensures
            r == self.heaven(),
            r <= MAX_LIGHT,
    {
        proof {
            use_type_invariant(self);
        }
        self.heaven
    }

    /// Lamp light, in `0..=15`.
    #[verifier::when_used_as_spec(hearth_spec)]
    pub fn hearth(&self) -> (r: u8)
        ensures
            r == self.hearth(),
            r <= MAX_LIGHT,
    {
        proof {
            use_type_invariant(self);
        }
        self.hearth
    }

    /// Channel by channel, the stronger of this light and what `donor` hands
    /// on.
    pub fn raise(self, donor: LightLevel, from_above: bool) -> (l: LightLevel)
        ensures
            l == self.raised_by(donor, from_above),
    {
        proof {
            use_type_invariant(self);
            use_type_invariant(donor);
        }
        let given_heaven: u8 = if from_above && donor.heaven == MAX_LIGHT {
            MAX_LIGHT
        } else if donor.heaven > 0 {
            donor.heaven - 1
        } else {
            0
        };
        let given_hearth: u8 = if donor.hearth > 0 { donor.hearth - 1 } else { 0 };
        LightLevel {
            heaven: if given_heaven > self.heaven { given_heaven } else { self.heaven },
            hearth: if given_hearth > self.hearth { given_hearth } else { self.hearth },
        }
    }

    /// Whether this light needs no repair beside a neighbour set to `target`.
    pub fn satisfies(self, target: LightLevel) -> (b: bool)
        ensures
            b == self.satisfied_by(target),
    {
        proof {
            use_type_invariant(self);
            use_type_invariant(target);
        }
        self.heaven + 1 >= target.heaven && self.hearth + 1 >= target.hearth
    }

    /// Whether two lights agree in both channels.
    pub fn same(self, other: LightLevel) -> (b: bool)
        ensures
            b == (self == other),
    {
        self.heaven == other.heaven && self.hearth == other.hearth
    }
}

/// A light is its two channels.
pub proof fn lemma_light_channels(heaven: u8, hearth: u8)
    ensures
        LightLevel::of(heaven, hearth).heaven() == heaven,
        LightLevel::of(heaven, hearth).hearth() == hearth,
{
}

/// Two lights with the same channels are the same light.
pub proof fn lemma_light_ext(a: LightLevel, b: LightLevel)
    requires
        a.heaven() == b.heaven(),
        a.hearth() == b.hearth(),
    ensures
        a == b,
{
}

/// The channels of a raised light are the larger of its own and the
/// donation. A light that is raised by a valid donor stays valid.
pub proof fn lemma_raise_channels(cur: LightLevel, donor: LightLevel, from_above: bool)
    ensures
        cur.raised_by(donor, from_above).heaven() == max_level(
            cur.heaven() as int,
            heaven_donation(donor, from_above),
        ),
        cur.raised_by(donor, from_above).hearth() == max_level(
            cur.hearth() as int,
            hearth_donation(donor),
        ),
        cur.valid() && donor.valid() ==> cur.raised_by(donor, from_above).valid(),
{
    let h = max_level(cur.heaven() as int, heaven_donation(donor, from_above));
    let e = max_level(cur.hearth() as int, hearth_donation(donor));
    lemma_light_channels(h as u8, e as u8);
}

} // verus!

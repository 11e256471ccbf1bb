use vstd::prelude::*;

verus! {

/// The colours a particle can have, in the order in which a simulation with
/// `n` colours uses the first `n` of them.
#[derive(Clone, Copy, Debug, PartialEq, Eq, Structural, Hash)]
pub enum ParticleColour {
    Red,
    Green,
    Blue,
    Orange,
    Pink,
    Aqua,
}

/// The colour at position `k` of the colour order (`k < 6`).
pub open spec fn colour_at(k: int) -> ParticleColour {
    if k == 0 {
        ParticleColour::Red
    } else if k == 1 {
        ParticleColour::Green
    } else if k == 2 {
        ParticleColour::Blue
    } else if k == 3 {
        ParticleColour::Orange
    } else if k == 4 {
        ParticleColour::Pink
    } else {
        ParticleColour::Aqua
    }
}

impl ParticleColour {
    /// The colour of the `i`-th particle when `num_colours` colours are dealt
    /// out in turn: the colour at position `i % num_colours`.
    pub fn from_cycle(i: usize, num_colours: usize) -> (colour: ParticleColour)
        requires
            num_colours > 0,
            i % num_colours < 6,
        ensures
            colour == colour_at((i % num_colours) as int),
    {
        match i % num_colours {
            0 => ParticleColour::Red,
            1 => ParticleColour::Green,
            2 => ParticleColour::Blue,
            3 => ParticleColour::Orange,
            4 => ParticleColour::Pink,
            _ => ParticleColour::Aqua,
        }
    }
}

/// The six positions of the colour order name six different colours.
pub proof fn lemma_colour_order_is_injective(a: int, b: int)
    requires
        0 <= a < 6,
        0 <= b < 6,
        colour_at(a) == colour_at(b),
    ensures
        a == b,
{
}

} // verus!

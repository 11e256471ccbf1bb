use vstd::prelude::*;
use crate::particles::colour::{colour_at, ParticleColour};
use crate::particles::particle::MAX_PARTICLES;

verus! {

/// How respawned particles are placed: uniformly over the world (`Unset`
/// and `Uniform`), or, in `Custom`, by the shape listed first for the
/// particle's colour (colours without a shape are placed uniformly).
pub enum SpawnerConfig<S> {
    Unset,
    Uniform,
    Custom(Vec<(ParticleColour, S)>),
}

impl<S> Default for SpawnerConfig<S> {
    fn default() -> (config: Self)
        ensures
            config is Uniform,
    {
        SpawnerConfig::Uniform
    }
}

impl<S> SpawnerConfig<S> {
    /// The shape that places particles of `colour`: in `Custom`, the shape of
    /// the first entry with that colour; `None` when there is no such entry
    /// or the configuration is not `Custom`.
    pub fn shape_for(&self, colour: ParticleColour) -> (shape: Option<&S>)
        ensures
            match self {
                SpawnerConfig::Custom(items) => match shape {
                    Some(s) => exists|i: int|
                        0 <= i < items@.len() && #[trigger] items@[i].0 == colour && *s == items@[i].1
                            && forall|j: int| 0 <= j < i ==> items@[j].0 != colour,
                    None => forall|i: int| 0 <= i < items@.len() ==> items@[i].0 != colour,
                },
                _ => shape is None,
            },
    {
        match self {
            SpawnerConfig::Custom(items) => {
                let mut i: usize = 0;
                while i < items.len()
                    invariant
                        *self == SpawnerConfig::Custom(*items),
                        i <= items@.len(),
                        forall|j: int| 0 <= j < i ==> items@[j].0 != colour,
                    decreases items@.len() - i,
                {
                    if items[i].0 == colour {
                        assert(items@[i as int].0 == colour);
                        return Some(&items[i].1);
                    }
                    i = i + 1;
                }
                None
            },
            _ => None,
        }
    }
}

/// The handles a particle is drawn with: one mesh, and one material per
/// colour.
pub struct ParticleAssets<M, H> {
    pub mesh: M,
    pub red: H,
    pub green: H,
    pub blue: H,
    pub orange: H,
    pub pink: H,
    pub aqua: H,
}

impl<M, H: Clone> ParticleAssets<M, H> {
    /// The material handle kept for `colour`.
    pub open spec fn handle_of(&self, colour: ParticleColour) -> H {
        match colour {
            ParticleColour::Red => self.red,
            ParticleColour::Green => self.green,
            ParticleColour::Blue => self.blue,
            ParticleColour::Orange => self.orange,
            ParticleColour::Pink => self.pink,
            ParticleColour::Aqua => self.aqua,
        }
    }

    /// Each colour is drawn with the material of its own name: the handle kept
    /// for red is the `red` field, for green the `green` field, and so on for
    /// all six colours.
    pub proof fn lemma_each_colour_has_its_own_material(&self)
        ensures
            self.handle_of(ParticleColour::Red) == self.red,
            self.handle_of(ParticleColour::Green) == self.green,
            self.handle_of(ParticleColour::Blue) == self.blue,
            self.handle_of(ParticleColour::Orange) == self.orange,
            self.handle_of(ParticleColour::Pink) == self.pink,
            self.handle_of(ParticleColour::Aqua) == self.aqua,
    {
    }

    /// A clone of the material handle kept for `colour`.
    pub fn material(&self, colour: ParticleColour) -> (material: H)
        ensures
            cloned(self.handle_of(colour), material),
            colour == ParticleColour::Red ==> cloned(self.red, material),
            colour == ParticleColour::Green ==> cloned(self.green, material),
            colour == ParticleColour::Blue ==> cloned(self.blue, material),
            colour == ParticleColour::Orange ==> cloned(self.orange, material),
            colour == ParticleColour::Pink ==> cloned(self.pink, material),
            colour == ParticleColour::Aqua ==> cloned(self.aqua, material),
    {
        match colour {
            ParticleColour::Red => self.red.clone(),
            ParticleColour::Green => self.green.clone(),
            ParticleColour::Blue => self.blue.clone(),
            ParticleColour::Orange => self.orange.clone(),
            ParticleColour::Pink => self.pink.clone(),
            ParticleColour::Aqua => self.aqua.clone(),
        }
    }
}

/// The colours of a full respawn: particle `i` of `MAX_PARTICLES` gets the
/// colour at position `i % num_colours` of the colour order.
pub fn respawn_colours(num_colours: usize) -> (colours: Vec<ParticleColour>)
    requires
        1 <= num_colours <= 6,
    ensures
        colours@.len() == MAX_PARTICLES,
        forall|i: int| 0 <= i < MAX_PARTICLES ==> #[trigger] colours@[i] == colour_at(i % num_colours as int),
{
    let mut colours: Vec<ParticleColour> = Vec::with_capacity(MAX_PARTICLES);
    let mut i: usize = 0;
    while i < MAX_PARTICLES
        invariant
            1 <= num_colours <= 6,
            i <= MAX_PARTICLES,
            colours@.len() == i,
            forall|j: int| 0 <= j < i ==> #[trigger] colours@[j] == colour_at(j % num_colours as int),
        decreases MAX_PARTICLES - i,
    {
        colours.push(ParticleColour::from_cycle(i, num_colours));
        i = i + 1;
    }
    colours
}

/// What to do with a request to spawn a particle.
#[derive(Clone, Copy, Debug, PartialEq, Eq, Structural)]
pub enum SpawnAction {
    /// Reuse the particle at this position of the particle index.
    Recycle(usize),
    /// Spawn a new particle.
    Spawn,
    /// Neither: the capacity is taken and the index holds no particle to
    /// reuse.
    Skip,
}

/// The position in the particle index of the particle to reuse next once the
/// index is full.
pub struct OldestParticle(pub usize);

impl Default for OldestParticle {
    fn default() -> (oldest: Self)
        ensures
            oldest.0 == 0,
    {
        OldestParticle(0)
    }
}

/// The oldest position after `k` recycles in an index of `n` particles,
/// starting from `o`.
pub open spec fn recycled_after(o: int, n: int, k: nat) -> int
    decreases k,
{
    if k == 0 {
        o
    } else {
        (recycled_after(o, n, (k - 1) as nat) + 1) % n
    }
}

impl OldestParticle {
    /// Decides a spawn request of a frame against an index of `index_len`
    /// particles, `spawned_this_frame` particles having already been spawned
    /// in the frame (they reach the index only after the frame). While the
    /// index and those spawns stay below `MAX_PARTICLES`, a new particle is
    /// spawned. Otherwise the oldest particle is reused and the next one
    /// becomes oldest, round robin; when the index has shrunk below the
    /// oldest position, the position is first taken modulo the index length.
    /// Only when the index is empty, so that there is no particle to reuse,
    /// is the request dropped.
    pub fn next_spawn(&mut self, index_len: usize, spawned_this_frame: usize) -> (action: SpawnAction)
        requires
            index_len >= MAX_PARTICLES ==> old(self).0 < index_len,
        ensures
            (action == SpawnAction::Spawn) == (index_len + spawned_this_frame < MAX_PARTICLES),
            index_len + spawned_this_frame < MAX_PARTICLES ==> final(self).0 == old(self).0,
            index_len + spawned_this_frame >= MAX_PARTICLES && index_len > 0 ==> {
                let slot = (old(self).0 as int) % (index_len as int);
                &&& action == SpawnAction::Recycle(slot as usize)
                &&& final(self).0 == (slot + 1) % (index_len as int)
                &&& final(self).0 < index_len
            },
            old(self).0 < index_len ==> (old(self).0 as int) % (index_len as int) == old(self).0,
            index_len + spawned_this_frame >= MAX_PARTICLES && index_len == 0 ==> {
                &&& action == SpawnAction::Skip
                &&& final(self).0 == old(self).0
            },
            index_len + spawned_this_frame <= MAX_PARTICLES ==> index_len + spawned_this_frame + spawns(action)
                <= MAX_PARTICLES,
    {
        proof {
            if old(self).0 < index_len {
                vstd::arithmetic::div_mod::lemma_fundamental_div_mod_converse(
                    old(self).0 as int,
                    index_len as int,
                    0,
                    old(self).0 as int,
                );
            }
        }
        if index_len < MAX_PARTICLES && spawned_this_frame < MAX_PARTICLES - index_len {
            SpawnAction::Spawn
        } else if index_len > 0 {
            let slot = self.0 % index_len;
            self.0 = (slot + 1) % index_len;
            SpawnAction::Recycle(slot)
        } else {
            SpawnAction::Skip
        }
    }
}

/// How many particles an action adds to the world.
pub open spec fn spawns(action: SpawnAction) -> int {
    if action is Spawn {
        1
    } else {
        0
    }
}

/// How many of `requests` spawn requests of one frame spawn a new particle
/// against an index of `index_len` particles, each request being decided by
/// `next_spawn` with the number of particles spawned before it in the frame.
pub open spec fn frame_spawns(index_len: int, requests: nat) -> int
    decreases requests,
{
    if requests == 0 {
        0
    } else {
        let before = frame_spawns(index_len, (requests - 1) as nat);
        if index_len + before < MAX_PARTICLES {
            before + 1
        } else {
            before
        }
    }
}

/// A frame never takes the world past `MAX_PARTICLES` particles: from an
/// index of at most `MAX_PARTICLES` particles, the requests of a frame spawn
/// new particles only up to the capacity, `min(requests, MAX_PARTICLES -
/// index_len)` of them, and recycle for the rest.
pub proof fn lemma_frame_stays_within_capacity(index_len: int, requests: nat)
    requires
        0 <= index_len <= MAX_PARTICLES,
    ensures
        index_len + frame_spawns(index_len, requests) <= MAX_PARTICLES,
        frame_spawns(index_len, requests) == if requests <= MAX_PARTICLES - index_len {
            requests as int
        } else {
            MAX_PARTICLES - index_len
        },
    decreases requests,
{
    if requests > 0 {
        lemma_frame_stays_within_capacity(index_len, (requests - 1) as nat);
    }
}

/// Recycling goes round robin: from any start in a full index of `n`
/// particles, the first `n` recycles reuse `n` different particles, and the
/// `n`-th recycle is back at the start.
pub proof fn lemma_recycling_is_round_robin(o: int, n: int)
    requires
        0 <= o < n,
    ensures
        forall|k: nat| #[trigger] recycled_after(o, n, k) == (o + k) % n,
        forall|a: nat, b: nat|
            a < b < n ==> #[trigger] recycled_after(o, n, a) != #[trigger] recycled_after(o, n, b),
        recycled_after(o, n, n as nat) == o,
{
    assert forall|k: nat| #[trigger] recycled_after(o, n, k) == (o + k) % n by {
        lemma_recycled_after_closed_form(o, n, k);
    }
    assert forall|a: nat, b: nat|
        a < b < n implies #[trigger] recycled_after(o, n, a) != #[trigger] recycled_after(o, n, b) by {
        lemma_recycled_after_closed_form(o, n, a);
        lemma_recycled_after_closed_form(o, n, b);
        vstd::arithmetic::div_mod::lemma_fundamental_div_mod(o + a, n);
        vstd::arithmetic::div_mod::lemma_fundamental_div_mod(o + b, n);
        let qa = (o + a) / n;
        let qb = (o + b) / n;
        assert(0 <= qa <= 1 && 0 <= qb <= 1) by (nonlinear_arith)
            requires
                o + a == n * qa + (o + a) % n,
                o + b == n * qb + (o + b) % n,
                0 <= (o + a) % n < n,
                0 <= (o + b) % n < n,
                0 <= o < n, 0 <= a < n, 0 <= b < n;
        if (o + a) % n == (o + b) % n {
            assert(false) by (nonlinear_arith)
                requires
                    o + a == n * qa + (o + a) % n,
                    o + b == n * qb + (o + b) % n,
                    (o + a) % n == (o + b) % n,
                    0 <= qa <= 1, 0 <= qb <= 1,
                    a < b < n;
        }
    }
    lemma_recycled_after_closed_form(o, n, n as nat);
    vstd::arithmetic::div_mod::lemma_fundamental_div_mod_converse(o + n, n, 1, o);
}

/// `k` recycles from `o` lead to `(o + k) % n`.
proof fn lemma_recycled_after_closed_form(o: int, n: int, k: nat)
    requires
        0 <= o < n,
    ensures
        recycled_after(o, n, k) == (o + k) % n,
    decreases k,
{
    if k == 0 {
        vstd::arithmetic::div_mod::lemma_fundamental_div_mod_converse(o, n, 0, o);
    } else {
        lemma_recycled_after_closed_form(o, n, (k - 1) as nat);
        let prev = o + k - 1;
        vstd::arithmetic::div_mod::lemma_fundamental_div_mod(prev, n);
        let q = prev / n;
        let r = prev % n;
        if r + 1 < n {
            vstd::arithmetic::div_mod::lemma_fundamental_div_mod_converse(r + 1, n, 0, r + 1);
            assert(prev + 1 == q * n + (r + 1)) by (nonlinear_arith)
                requires prev == n * q + r;
            vstd::arithmetic::div_mod::lemma_fundamental_div_mod_converse(prev + 1, n, q, r + 1);
        } else {
            vstd::arithmetic::div_mod::lemma_fundamental_div_mod_converse(r + 1, n, 1, 0);
            assert(prev + 1 == (q + 1) * n + 0) by (nonlinear_arith)
                requires prev == n * q + r, r + 1 == n;
            vstd::arithmetic::div_mod::lemma_fundamental_div_mod_converse(prev + 1, n, q + 1, 0);
        }
    }
}

/// Whether particles must be recoloured after the simulation parameters were
/// looked at: only when they changed and the number of colours differs from
/// the one last seen, which then becomes the one last seen.
pub fn should_recolour(prev_num: &mut usize, params_changed: bool, num_colours: usize) -> (recolour: bool)
    ensures
        recolour == (params_changed && num_colours != *old(prev_num)),
        recolour ==> *final(prev_num) == num_colours,
        !recolour ==> *final(prev_num) == *old(prev_num),
{
    if !params_changed {
        return false;
    }
    if num_colours == *prev_num {
        return false;
    }
    *prev_num = num_colours;
    true
}

} // verus!

use vstd::prelude::*;

verus! {

/// The most particles the simulation keeps track of.
pub const MAX_PARTICLES: usize = 3000;

/// The index after the add hook of `entity`: recorded at the end unless the
/// index is full.
pub open spec fn after_add(s: Seq<u64>, entity: u64) -> Seq<u64> {
    if s.len() < MAX_PARTICLES {
        s.push(entity)
    } else {
        s
    }
}

/// The index after the remove hook of `entity`: its first occurrence
/// dropped, if there is one.
pub open spec fn after_remove(s: Seq<u64>, entity: u64) -> Seq<u64>
    decreases s.len(),
{
    if s.len() == 0 {
        s
    } else if s[0] == entity {
        s.drop_first()
    } else {
        seq![s[0]] + after_remove(s.drop_first(), entity)
    }
}

/// The index after the add hooks of `entities`, in order.
pub open spec fn add_all(s: Seq<u64>, entities: Seq<u64>) -> Seq<u64>
    decreases entities.len(),
{
    if entities.len() == 0 {
        s
    } else {
        after_add(add_all(s, entities.drop_last()), entities.last())
    }
}

/// The index after the remove hooks of `entities`, in order.
pub open spec fn remove_all(s: Seq<u64>, entities: Seq<u64>) -> Seq<u64>
    decreases entities.len(),
{
    if entities.len() == 0 {
        s
    } else {
        after_remove(remove_all(s, entities.drop_last()), entities.last())
    }
}

/// Dropping the first occurrence of `entity`, found at `i`, is what the
/// remove hook does to the index.
proof fn lemma_after_remove_at(s: Seq<u64>, entity: u64, i: int)
    requires
        0 <= i < s.len(),
        s[i] == entity,
        forall|j: int| 0 <= j < i ==> s[j] != entity,
    ensures
        after_remove(s, entity) == s.remove(i),
    decreases s.len(),
{
    if i == 0 {
        assert(s.remove(0) =~= s.drop_first());
    } else {
        lemma_after_remove_at(s.drop_first(), entity, i - 1);
        assert(seq![s[0]] + s.drop_first().remove(i - 1) =~= s.remove(i));
    }
}

/// Removing an entity that is not in the index leaves it as it is.
proof fn lemma_after_remove_absent(s: Seq<u64>, entity: u64)
    requires
        !s.contains(entity),
    ensures
        after_remove(s, entity) == s,
    decreases s.len(),
{
    if s.len() > 0 {
        assert(s[0] != entity);
        assert(!s.drop_first().contains(entity)) by {
            if s.drop_first().contains(entity) {
                let j = choose|j: int| 0 <= j < s.drop_first().len() && s.drop_first()[j] == entity;
                assert(s[j + 1] == entity);
            }
        }
        lemma_after_remove_absent(s.drop_first(), entity);
        assert(seq![s[0]] + s.drop_first() =~= s);
    }
}

/// The live particles, in the order in which they were added; each particle
/// is named by the bits of its entity id.
pub struct ParticleIndex(pub Vec<u64>);

impl ParticleIndex {
    /// An index with no particles.
    pub fn new() -> (index: ParticleIndex)
        ensures
            index.0@ == Seq::<u64>::empty(),
    {
        ParticleIndex(Vec::with_capacity(MAX_PARTICLES))
    }

    /// Forgets every particle.
    pub fn clear(&mut self)
        ensures
            final(self).0@ == Seq::<u64>::empty(),
    {
        self.0.clear();
    }

    /// Records a newly added particle, unless the index already holds
    /// `MAX_PARTICLES` particles; answers whether it was recorded.
    pub fn on_add(&mut self, entity: u64) -> (added: bool)
        ensures
            added == (old(self).0@.len() < MAX_PARTICLES),
            added ==> final(self).0@ == old(self).0@.push(entity),
            !added ==> final(self).0@ == old(self).0@,
            final(self).0@ == after_add(old(self).0@, entity),
            old(self).0@.len() <= MAX_PARTICLES ==> final(self).0@.len() <= MAX_PARTICLES,
    {
        if self.0.len() >= MAX_PARTICLES {
            return false;
        }
        self.0.push(entity);
        true
    }

    /// Forgets a removed particle: drops its first occurrence and answers the
    /// position it had, or leaves the index unchanged and answers `None` when
    /// the particle is not in it.
    pub fn on_remove(&mut self, entity: u64) -> (removed: Option<usize>)
        ensures
            match removed {
                Some(i) => {
                    &&& i < old(self).0@.len()
                    &&& old(self).0@[i as int] == entity
                    &&& forall|j: int| 0 <= j < i ==> old(self).0@[j] != entity
                    &&& final(self).0@ == old(self).0@.remove(i as int)
                },
                None => {
                    &&& !old(self).0@.contains(entity)
                    &&& final(self).0@ == old(self).0@
                },
            },
            final(self).0@ == after_remove(old(self).0@, entity),
    {
        let mut i: usize = 0;
        while i < self.0.len()
            invariant
                self.0@ == old(self).0@,
                i <= self.0@.len(),
                forall|j: int| 0 <= j < i ==> self.0@[j] != entity,
            decreases self.0@.len() - i,
        {
            if self.0[i] == entity {
                proof {
                    lemma_after_remove_at(self.0@, entity, i as int);
                }
                self.0.remove(i);
                return Some(i);
            }
            i = i + 1;
        }
        proof {
            assert(!self.0@.contains(entity)) by {
                if self.0@.contains(entity) {
                    let j = choose|j: int| 0 <= j < self.0@.len() && self.0@[j] == entity;
                    assert(self.0@[j] != entity);
                }
            }
            lemma_after_remove_absent(self.0@, entity);
        }
        None
    }
}

/// Adding a particle that is not in the index and then removing it gives the
/// index back as it was: the removal finds it at the end, where it was added.
pub proof fn lemma_add_then_remove_restores(before: Seq<u64>, entity: u64, i: int)
    requires
        !before.contains(entity),
        0 <= i < before.len() + 1,
        before.push(entity)[i] == entity,
        forall|j: int| 0 <= j < i ==> before.push(entity)[j] != entity,
    ensures
        i == before.len(),
        before.push(entity).remove(i) == before,
{
    if i < before.len() {
        assert(before[i] == entity);
    }
    assert(before.push(entity).remove(i) =~= before);
}

/// Add hooks within the capacity record every entity: from an index of
/// `s.len()` particles, the add hooks of `entities`, with
/// `s.len() + entities.len() <= MAX_PARTICLES`, leave `s` followed by
/// `entities`.
pub proof fn lemma_adds_within_capacity(s: Seq<u64>, entities: Seq<u64>)
    requires
        s.len() + entities.len() <= MAX_PARTICLES,
    ensures
        add_all(s, entities) == s + entities,
    decreases entities.len(),
{
    if entities.len() > 0 {
        lemma_adds_within_capacity(s, entities.drop_last());
        assert(s + entities.drop_last() + seq![entities.last()] =~= s + entities);
        assert((s + entities.drop_last()).push(entities.last()) =~= s + entities);
    }
}

/// The remove hooks find nothing to remove in an empty index.
pub proof fn lemma_removes_from_empty(entities: Seq<u64>)
    ensures
        remove_all(Seq::<u64>::empty(), entities) == Seq::<u64>::empty(),
    decreases entities.len(),
{
    if entities.len() > 0 {
        lemma_removes_from_empty(entities.drop_last());
    }
}

/// A respawn leaves the index holding exactly the new particles, in spawn
/// order: the index is cleared, the remove hooks of the despawned particles
/// then run on it, and after them the add hooks of the `MAX_PARTICLES`
/// spawned ones.
pub proof fn lemma_respawn_indexes_the_new_particles(despawned: Seq<u64>, spawned: Seq<u64>)
    requires
        spawned.len() == MAX_PARTICLES,
    ensures
        add_all(remove_all(Seq::<u64>::empty(), despawned), spawned) == spawned,
        add_all(remove_all(Seq::<u64>::empty(), despawned), spawned).len() == MAX_PARTICLES,
{
    lemma_removes_from_empty(despawned);
    lemma_adds_within_capacity(Seq::<u64>::empty(), spawned);
    assert(Seq::<u64>::empty() + spawned =~= spawned);
}

/// The index never holds more than `MAX_PARTICLES` particles, whatever add
/// hooks run on it.
pub proof fn lemma_adds_stay_within_capacity(s: Seq<u64>, entities: Seq<u64>)
    requires
        s.len() <= MAX_PARTICLES,
    ensures
        add_all(s, entities).len() <= MAX_PARTICLES,
    decreases entities.len(),
{
    if entities.len() > 0 {
        lemma_adds_stay_within_capacity(s, entities.drop_last());
    }
}

} // verus!

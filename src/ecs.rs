use vstd::prelude::*;
use std::collections::VecDeque;

verus! {

/// The identity of an entity.
pub type Entity = u32;

/// Number of entities that can live at once.
pub const MAX_ENTITIES: u32 = 5000;

/// Number of component kinds an entity can carry.
pub const MAX_COMPONENTS: usize = 32;

/// Which component kinds an entity carries, one flag each.
#[derive(Clone, Copy, Debug)]
pub struct Signature {
    v: [bool; MAX_COMPONENTS],
}

impl Signature {
    pub closed spec fn flags(self) -> Seq<bool> {
        self.v@
    }

    pub fn new(v: [bool; MAX_COMPONENTS]) -> (r: Signature)
        ensures
            r.flags() == v@,
    {
        Signature { v }
    }

    pub fn empty() -> (r: Signature)
        ensures
            r.flags().len() == MAX_COMPONENTS,
            forall|i: int| 0 <= i < MAX_COMPONENTS ==> !(#[trigger] r.flags()[i]),
    {
        let v = [false; MAX_COMPONENTS];
        Signature { v }
    }
}

/// Why no entity could be created.
#[derive(Clone, Copy, Debug, PartialEq, Eq, Structural)]
pub enum EntityError {
    /// Every identity is in use.
    Exhausted,
}

/// Hands out entity identities from a pool, newest first, and keeps a
/// signature per identity.
pub struct EntityManager {
    avail_entities: VecDeque<Entity>,
    signatures: Vec<Signature>,
    living_count: usize,
}

impl EntityManager {
    /// The identities still free, the last one handed out next.
    pub closed spec fn available(self) -> Seq<Entity> {
        self.avail_entities@
    }

    /// The number of entities created so far.
    pub closed spec fn living(self) -> nat {
        self.living_count as nat
    }

    pub closed spec fn wf(self) -> bool {
        &&& self.avail_entities@.len() + self.living_count == MAX_ENTITIES
        &&& self.signatures@.len() == MAX_ENTITIES
    }

    pub fn new() -> (r: EntityManager)
        ensures
            r.wf(),
            r.living() == 0,
            r.available().len() == MAX_ENTITIES,
            forall|i: int| 0 <= i < MAX_ENTITIES ==> #[trigger] r.available()[i] == i,
    {
        let mut e: VecDeque<Entity> = VecDeque::new();
        let mut signatures: Vec<Signature> = Vec::new();
        let mut id: u32 = 0;
        while id < MAX_ENTITIES
            invariant
                id <= MAX_ENTITIES,
                e@.len() == id,
                signatures@.len() == id,
                forall|i: int| 0 <= i < id ==> #[trigger] e@[i] == i,
            decreases MAX_ENTITIES - id,
        {
            e.push_back(id);
            signatures.push(Signature::empty());
            id = id + 1;
        }
        EntityManager { living_count: 0, avail_entities: e, signatures }
    }

    /// Takes the next free identity: the last of the pool.
    pub fn create_entity(&mut self) -> (r: Result<Entity, EntityError>)
        requires
            old(self).wf(),
        ensures
            final(self).wf(),
            old(self).available().len() > 0 ==> r == Ok::<Entity, EntityError>(old(self).available().last())
                && final(self).available() == old(self).available().drop_last() && final(self).living()
                == old(self).living() + 1,
            old(self).available().len() == 0 ==> r == Err::<Entity, EntityError>(EntityError::Exhausted)
                && final(self).available() == old(self).available() && final(self).living() == old(self).living(),
    {
        match self.avail_entities.pop_back() {
            Some(id) => {
                self.living_count += 1;
                Ok(id)
            },
            None => Err(EntityError::Exhausted),
        }
    }
}

} // verus!

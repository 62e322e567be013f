//! What happens to the entities of a world, and the events that a
//! connection gives when it lets go of the remote host's entities.

use vstd::prelude::*;

verus! {

/// The number that stands for a kind of component.
pub type ComponentKind = u16;

/// A change to an entity that is to be passed on.
#[derive(Clone, Debug, PartialEq, Eq)]
pub enum EntityAction<E: Copy> {
    SpawnEntity(E, Option<Vec<ComponentKind>>),
    DespawnEntity(E),
    InsertComponent(E, ComponentKind),
    UpdateComponent(E, ComponentKind),
    RemoveComponent(E, ComponentKind),
}

/// What kind of change an action is.
#[derive(Clone, Copy, Debug, PartialEq, Eq, Structural)]
pub enum EntityActionType {
    SpawnEntity,
    DespawnEntity,
    InsertComponent,
    UpdateComponent,
    RemoveComponent,
}

impl<E: Copy> EntityAction<E> {
    /// The kind of change that the action is.
    pub open spec fn kind(&self) -> EntityActionType {
        match self {
            EntityAction::SpawnEntity(_, _) => EntityActionType::SpawnEntity,
            EntityAction::DespawnEntity(_) => EntityActionType::DespawnEntity,
            EntityAction::InsertComponent(_, _) => EntityActionType::InsertComponent,
            EntityAction::UpdateComponent(_, _) => EntityActionType::UpdateComponent,
            EntityAction::RemoveComponent(_, _) => EntityActionType::RemoveComponent,
        }
    }

    /// The kind of change that the action is.
    pub fn as_type(&self) -> (r: EntityActionType)
        ensures
            r == self.kind(),
    {
        match self {
            EntityAction::SpawnEntity(_, _) => EntityActionType::SpawnEntity,
            EntityAction::DespawnEntity(_) => EntityActionType::DespawnEntity,
            EntityAction::InsertComponent(_, _) => EntityActionType::InsertComponent,
            EntityAction::UpdateComponent(_, _) => EntityActionType::UpdateComponent,
            EntityAction::RemoveComponent(_, _) => EntityActionType::RemoveComponent,
        }
    }
}

/// Something that has happened to an entity of the remote host.
#[derive(Clone, Copy, Debug, PartialEq, Eq)]
pub enum EntityEvent<E: Copy> {
    /// The entity is gone.
    DespawnEntity(E),
    /// The entity has lost its component of a kind.
    RemoveComponent(E, ComponentKind),
}

/// The events that letting go of one entity gives: one for each of its
/// components, in their order, and one for the entity in the end.
pub open spec fn entity_despawn_events<E: Copy>(entity: E, kinds: Seq<ComponentKind>) -> Seq<
    EntityEvent<E>,
> {
    Seq::new(kinds.len(), |i: int| EntityEvent::RemoveComponent(entity, kinds[i])).push(
        EntityEvent::DespawnEntity(entity),
    )
}

/// The events that letting go of some entities gives, entity by entity.
pub open spec fn despawn_events<E: Copy>(entities: Seq<(E, Vec<ComponentKind>)>) -> Seq<
    EntityEvent<E>,
>
    decreases entities.len(),
{
    if entities.len() == 0 {
        Seq::empty()
    } else {
        despawn_events(entities.drop_last()) + entity_despawn_events(
            entities.last().0,
            entities.last().1@,
        )
    }
}

} // verus!

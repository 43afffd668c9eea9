//! Deferred hierarchy mutations: each is a value that carries its parameters,
//! queued now and applied later, in the order queued, by `Commands::apply`.
use vstd::prelude::*;
use crate::child_builder::{remove_all, splice_children};
use crate::components::Entity;
use crate::despawn::despawned;
use crate::world::{World, WorldView};

verus! {

/// Adds `child` at the end of `parent`'s children.
pub struct PushChild {
    pub parent: Entity,
    pub child: Entity,
}

/// Inserts `children` at `index` of `parent`'s children.
pub struct InsertChildren {
    pub parent: Entity,
    pub children: Vec<Entity>,
    pub index: usize,
}

/// Appends `children` to `parent`'s children.
pub struct PushChildren {
    pub parent: Entity,
    pub children: Vec<Entity>,
}

/// Takes `children` off `parent`'s children.
pub struct RemoveChildren {
    pub parent: Entity,
    pub children: Vec<Entity>,
}

/// Takes all children off `parent`.
pub struct ClearChildren {
    pub parent: Entity,
}

/// Makes `children` the children of `parent`.
pub struct ReplaceChildren {
    pub parent: Entity,
    pub children: Vec<Entity>,
}

/// Takes `child` off its parent.
pub struct RemoveParent {
    pub child: Entity,
}

/// Destroys `target` and everything listed below it.
pub struct RollSafeDespawnRecursive {
    pub target: Entity,
}

/// One queued hierarchy mutation.
pub enum HierarchyCommand {
    PushChild(PushChild),
    InsertChildren(InsertChildren),
    PushChildren(PushChildren),
    RemoveChildren(RemoveChildren),
    ClearChildren(ClearChildren),
    ReplaceChildren(ReplaceChildren),
    RemoveParent(RemoveParent),
    DespawnRecursive(RollSafeDespawnRecursive),
}

impl HierarchyCommand {
    /// The command does not make an entity its own child.
    pub open spec fn well_formed(&self) -> bool {
        match self {
            HierarchyCommand::PushChild(c) => c.parent != c.child,
            HierarchyCommand::InsertChildren(c) => !c.children@.contains(c.parent),
            HierarchyCommand::PushChildren(c) => !c.children@.contains(c.parent),
            HierarchyCommand::ReplaceChildren(c) => !c.children@.contains(c.parent),
            _ => true,
        }
    }

    /// The command may mint identities.
    pub open spec fn mints(&self) -> bool {
        match self {
            HierarchyCommand::PushChild(_) => true,
            HierarchyCommand::InsertChildren(_) => true,
            HierarchyCommand::PushChildren(_) => true,
            HierarchyCommand::ReplaceChildren(_) => true,
            _ => false,
        }
    }

    /// How many identities the command may mint, at most, less one.
    pub open spec fn batch_len(&self) -> nat {
        match self {
            HierarchyCommand::PushChild(_) => 1,
            HierarchyCommand::InsertChildren(c) => c.children@.len(),
            HierarchyCommand::PushChildren(c) => c.children@.len(),
            HierarchyCommand::ReplaceChildren(c) => c.children@.len(),
            _ => 0,
        }
    }

    /// `w` is what applying the command to `v` leaves: the same as the direct
    /// operation, or `v` itself where the identity counter has no room left.
    pub open spec fn applied(&self, v: WorldView, w: WorldView) -> bool {
        if self.mints() && v.next + self.batch_len() >= usize::MAX {
            w == v
        } else {
            match self {
                HierarchyCommand::PushChild(c) => w == splice_children(
                    v,
                    c.parent,
                    None,
                    seq![c.child],
                ),
                HierarchyCommand::InsertChildren(c) => w == splice_children(
                    v,
                    c.parent,
                    Some(c.index as int),
                    c.children@,
                ),
                HierarchyCommand::PushChildren(c) => w == splice_children(
                    v,
                    c.parent,
                    None,
                    c.children@,
                ),
                HierarchyCommand::RemoveChildren(c) => w == remove_all(v, c.parent, c.children@),
                HierarchyCommand::ClearChildren(c) => w == v.clear(c.parent),
                HierarchyCommand::ReplaceChildren(c) => w == splice_children(
                    v.clear(c.parent),
                    c.parent,
                    None,
                    c.children@,
                ),
                HierarchyCommand::RemoveParent(c) => w == (if v.live(c.child) {
                    v.detach(c.child)
                } else {
                    v
                }),
                HierarchyCommand::DespawnRecursive(c) => despawned(v, w, c.target),
            }
        }
    }

    /// Applies the command to `world`.
    pub fn apply(&self, world: &mut World)
        requires
            old(world).wf(),
            self.well_formed(),
        ensures
            final(world).wf(),
            self.applied(old(world)@, final(world)@),
    {
        let room = match self {
            HierarchyCommand::PushChild(_) => world.has_room_for(1),
            HierarchyCommand::InsertChildren(c) => world.has_room_for(c.children.len()),
            HierarchyCommand::PushChildren(c) => world.has_room_for(c.children.len()),
            HierarchyCommand::ReplaceChildren(c) => world.has_room_for(c.children.len()),
            _ => true,
        };
        if !room {
            return;
        }
        match self {
            HierarchyCommand::PushChild(c) => world.add_child(c.parent, c.child),
            HierarchyCommand::InsertChildren(c) => world.insert_children(
                c.parent,
                c.index,
                c.children.as_slice(),
            ),
            HierarchyCommand::PushChildren(c) => world.push_children(
                c.parent,
                c.children.as_slice(),
            ),
            HierarchyCommand::RemoveChildren(c) => world.remove_children(
                c.parent,
                c.children.as_slice(),
            ),
            HierarchyCommand::ClearChildren(c) => world.clear_children(c.parent),
            HierarchyCommand::ReplaceChildren(c) => world.replace_children(
                c.parent,
                c.children.as_slice(),
            ),
            HierarchyCommand::RemoveParent(c) => world.remove_parent(c.child),
            HierarchyCommand::DespawnRecursive(c) => world.rollsafe_despawn_recursive(c.target),
        }
    }
}

/// A queue of hierarchy mutations, applied in the order they were queued.
pub struct Commands {
    queue: Vec<HierarchyCommand>,
}

impl View for Commands {
    type V = Seq<HierarchyCommand>;

    closed spec fn view(&self) -> Seq<HierarchyCommand> {
        self.queue@
    }
}

/// Each store of `trace` is what applying the matching command of `cmds` to
/// the store before it leaves.
pub open spec fn replays(trace: Seq<WorldView>, cmds: Seq<HierarchyCommand>) -> bool {
    &&& trace.len() == cmds.len() + 1
    &&& forall|i: int| 0 <= i < cmds.len() ==> #[trigger] cmds[i].applied(trace[i], trace[i + 1])
}

impl Commands {
    /// An empty queue.
    pub fn new() -> (r: Commands)
        ensures
            r@ == Seq::<HierarchyCommand>::empty(),
    {
        Commands { queue: Vec::new() }
    }

    /// The number of queued commands.
    pub fn len(&self) -> (r: usize)
        ensures
            r == self@.len(),
    {
        self.queue.len()
    }

    /// Queues `cmd` after those already queued.
    pub fn add(&mut self, cmd: HierarchyCommand)
        requires
            cmd.well_formed(),
        ensures
            final(self)@ == old(self)@.push(cmd),
    {
        self.queue.push(cmd);
    }

    /// Queues adding `child` at the end of `parent`'s children.
    pub fn add_child(&mut self, parent: Entity, child: Entity)
        requires
            parent != child,
        ensures
            final(self)@ == old(self)@.push(HierarchyCommand::PushChild(PushChild { parent, child })),
    {
        self.queue.push(HierarchyCommand::PushChild(PushChild { parent, child }));
    }

    /// Queues making `parent` the parent of `child`.
    pub fn set_parent(&mut self, child: Entity, parent: Entity)
        requires
            parent != child,
        ensures
            final(self)@ == old(self)@.push(HierarchyCommand::PushChild(PushChild { parent, child })),
    {
        self.queue.push(HierarchyCommand::PushChild(PushChild { parent, child }));
    }

    /// Queues appending `children` to `parent`'s children.
    pub fn push_children(&mut self, parent: Entity, children: Vec<Entity>)
        requires
            !children@.contains(parent),
        ensures
            final(self)@ == old(self)@.push(
                HierarchyCommand::PushChildren(PushChildren { parent, children }),
            ),
    {
        self.queue.push(HierarchyCommand::PushChildren(PushChildren { parent, children }));
    }

    /// Queues inserting `children` at `index` of `parent`'s children.
    pub fn insert_children(&mut self, parent: Entity, index: usize, children: Vec<Entity>)
        requires
            !children@.contains(parent),
        ensures
            final(self)@ == old(self)@.push(
                HierarchyCommand::InsertChildren(InsertChildren { parent, children, index }),
            ),
    {
        self.queue.push(HierarchyCommand::InsertChildren(InsertChildren { parent, children, index }));
    }

    /// Queues taking `children` off `parent`'s children.
    pub fn remove_children(&mut self, parent: Entity, children: Vec<Entity>)
        ensures
            final(self)@ == old(self)@.push(
                HierarchyCommand::RemoveChildren(RemoveChildren { parent, children }),
            ),
    {
        self.queue.push(HierarchyCommand::RemoveChildren(RemoveChildren { parent, children }));
    }

    /// Queues taking all children off `parent`.
    pub fn clear_children(&mut self, parent: Entity)
        ensures
            final(self)@ == old(self)@.push(HierarchyCommand::ClearChildren(ClearChildren { parent })),
    {
        self.queue.push(HierarchyCommand::ClearChildren(ClearChildren { parent }));
    }

    /// Queues making `children` the children of `parent`.
    pub fn replace_children(&mut self, parent: Entity, children: Vec<Entity>)
        requires
            !children@.contains(parent),
        ensures
            final(self)@ == old(self)@.push(
                HierarchyCommand::ReplaceChildren(ReplaceChildren { parent, children }),
            ),
    {
        self.queue.push(HierarchyCommand::ReplaceChildren(ReplaceChildren { parent, children }));
    }

    /// Queues taking `child` off its parent.
    pub fn remove_parent(&mut self, child: Entity)
        ensures
            final(self)@ == old(self)@.push(HierarchyCommand::RemoveParent(RemoveParent { child })),
    {
        self.queue.push(HierarchyCommand::RemoveParent(RemoveParent { child }));
    }

    /// Queues destroying `target` and everything listed below it.
    pub fn rollsafe_despawn_recursive(&mut self, target: Entity)
        ensures
            final(self)@ == old(self)@.push(
                HierarchyCommand::DespawnRecursive(RollSafeDespawnRecursive { target }),
            ),
    {
        self.queue.push(HierarchyCommand::DespawnRecursive(RollSafeDespawnRecursive { target }));
    }

    /// Applies the queued commands to `world`, in the order they were queued,
    /// and empties the queue.
    pub fn apply(&mut self, world: &mut World)
        requires
            old(world).wf(),
            forall|i: int| 0 <= i < old(self)@.len() ==> (#[trigger] old(self)@[i]).well_formed(),
        ensures
            final(world).wf(),
            final(self)@ == Seq::<HierarchyCommand>::empty(),
            exists|trace: Seq<WorldView>|
                #![trigger replays(trace, old(self)@)]
                replays(trace, old(self)@) && trace[0] == old(world)@ && trace.last()
                    == final(world)@,
    {
        let ghost cmds = self.queue@;
        assert(cmds == old(self)@);
        let ghost mut trace: Seq<WorldView> = seq![world@];
        let n = self.queue.len();
        let mut i: usize = 0;
        while i < n
            invariant
                world.wf(),
                n == cmds.len(),
                self.queue@ == cmds,
                i <= n,
                forall|j: int| 0 <= j < cmds.len() ==> (#[trigger] cmds[j]).well_formed(),
                trace.len() == i + 1,
                trace[0] == old(world)@,
                trace.last() == world@,
                forall|j: int| 0 <= j < i ==> #[trigger] cmds[j].applied(trace[j], trace[j + 1]),
            decreases n - i,
        {
            let ghost w0 = world@;
            self.queue[i].apply(world);
            proof {
                let prev = trace;
                trace = trace.push(world@);
                assert(trace[i as int] == w0);
                assert forall|j: int| 0 <= j < i + 1 implies #[trigger] cmds[j].applied(
                    trace[j],
                    trace[j + 1],
                ) by {
                    if j < i {
                        assert(trace[j] == prev[j]);
                        assert(trace[j + 1] == prev[j + 1]);
                    }
                }
            }
            i = i + 1;
        }
        self.queue = Vec::new();
        proof {
            assert(replays(trace, old(self)@));
        }
    }
}

} // verus!

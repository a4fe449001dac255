//! Shutdown handles: the operations of one node of a [`Registry`].
use vstd::prelude::*;

use crate::registry::{ran_counts, ran_hooks, shut_effect, HookId, Registry, MAX_SUBSCRIBERS};

verus! {

/// A handle on one node of a [`Registry`].
#[derive(Clone, Copy, Debug, PartialEq, Eq, Structural)]
pub struct ShutUp {
    pub id: usize,
}

impl ShutUp {
    /// A new handle with no parent: not shut, no children, no hooks.
    pub fn root(reg: &mut Registry) -> (r: ShutUp)
        requires
            old(reg).wf(),
            old(reg).size() < usize::MAX,
        ensures
            final(reg).wf(),
            r.id == old(reg).size(),
            final(reg).size() == old(reg).size() + 1,
            final(reg).offs() == old(reg).offs().push(false),
            final(reg).kids() == old(reg).kids().push(Seq::empty()),
            final(reg).pending() == old(reg).pending().push(Seq::empty()),
            final(reg).listeners() == old(reg).listeners().push(0),
    {
        ShutUp { id: reg.add_node() }
    }

    /// A new handle, appended to the children of this one.
    pub fn child(&self, reg: &mut Registry) -> (r: ShutUp)
        requires
            old(reg).wf(),
            self.id < old(reg).size() < usize::MAX,
        ensures
            final(reg).wf(),
            r.id == old(reg).size(),
            final(reg).size() == old(reg).size() + 1,
            final(reg).offs() == old(reg).offs().push(false),
            final(reg).kids() == old(reg).kids().push(Seq::empty()).update(
                self.id as int,
                old(reg).kids()[self.id as int].push(r.id),
            ),
            final(reg).pending() == old(reg).pending().push(Seq::empty()),
            final(reg).listeners() == old(reg).listeners().push(0),
    {
        let id = reg.add_node();
        reg.add_child(self.id, id);
        proof {
            old(reg).lemma_wf_lens();
        }
        assert(reg.kids() =~= old(reg).kids().push(Seq::empty()).update(
            self.id as int,
            old(reg).kids()[self.id as int].push(id),
        ));
        ShutUp { id }
    }

    /// Appends `child`, an existing handle, to the children of this one.
    /// A handle may have any number of parents.
    pub fn adopt(&self, reg: &mut Registry, child: &ShutUp)
        requires
            old(reg).wf(),
            self.id < old(reg).size(),
            child.id < old(reg).size(),
        ensures
            final(reg).wf(),
            final(reg).size() == old(reg).size(),
            final(reg).offs() == old(reg).offs(),
            final(reg).kids() == old(reg).kids().update(
                self.id as int,
                old(reg).kids()[self.id as int].push(child.id),
            ),
            final(reg).pending() == old(reg).pending(),
            final(reg).listeners() == old(reg).listeners(),
    {
        reg.add_child(self.id, child.id);
    }

    /// The process root: node `0`, the parent of every handle made by
    /// [`ShutUp::new`].
    pub fn process_root() -> (r: ShutUp)
        ensures
            r.id == 0,
    {
        ShutUp { id: 0 }
    }

    /// A new handle, appended to the children of the process root.
    pub fn new(reg: &mut Registry) -> (r: ShutUp)
        requires
            old(reg).wf(),
            old(reg).size() < usize::MAX,
        ensures
            final(reg).wf(),
            r.id == old(reg).size(),
            final(reg).size() == old(reg).size() + 1,
            final(reg).offs() == old(reg).offs().push(false),
            final(reg).kids() == old(reg).kids().push(Seq::empty()).update(
                0,
                old(reg).kids()[0].push(r.id),
            ),
            final(reg).pending() == old(reg).pending().push(Seq::empty()),
            final(reg).listeners() == old(reg).listeners().push(0),
    {
        proof {
            old(reg).lemma_wf_lens();
        }
        ShutUp::process_root().child(reg)
    }

    /// A listener that the shutdown of this handle releases, or `None` where
    /// the handle is already shut and a waiter has nothing to wait for.
    pub fn wait(&self, reg: &mut Registry) -> (r: Option<tokio::sync::broadcast::Receiver<()>>)
        requires
            old(reg).wf(),
            self.id < old(reg).size(),
            old(reg).listeners()[self.id as int] < MAX_SUBSCRIBERS,
        ensures
            final(reg).wf(),
            r.is_none() == old(reg).offs()[self.id as int],
            final(reg).size() == old(reg).size(),
            final(reg).offs() == old(reg).offs(),
            final(reg).kids() == old(reg).kids(),
            final(reg).pending() == old(reg).pending(),
            final(reg).listeners() == if r.is_none() {
                old(reg).listeners()
            } else {
                old(reg).listeners().update(self.id as int, (old(reg).listeners()[self.id as int] + 1) as usize)
            },
    {
        reg.listen(self.id)
    }

    /// Whether this handle is shut.
    pub fn off(&self, reg: &Registry) -> (r: bool)
        requires
            reg.wf(),
            self.id < reg.size(),
        ensures
            r == reg.offs()[self.id as int],
    {
        reg.is_off(self.id)
    }

    /// Queues `hook` to run when this handle shuts. Where it is already shut,
    /// nothing changes and the result is `true`: run the hook now.
    pub fn register_hook(&self, reg: &mut Registry, hook: HookId) -> (run_now: bool)
        requires
            old(reg).wf(),
            self.id < old(reg).size(),
        ensures
            final(reg).wf(),
            run_now == old(reg).offs()[self.id as int],
            run_now ==> *final(reg) == *old(reg),
            final(reg).size() == old(reg).size(),
            final(reg).offs() == old(reg).offs(),
            final(reg).kids() == old(reg).kids(),
            final(reg).listeners() == old(reg).listeners(),
            final(reg).pending() == if run_now {
                old(reg).pending()
            } else {
                old(reg).pending().update(self.id as int, old(reg).pending()[self.id as int].push(hook))
            },
    {
        reg.add_hook(self.id, hook)
    }

    /// Shuts this handle and, through their parents, its descendants; returns
    /// the hooks to run, in order. Shutting twice does nothing the second time.
    pub fn shut(&self, reg: &mut Registry) -> (ran: Vec<HookId>)
        requires
            old(reg).wf(),
            self.id < old(reg).size(),
        ensures
            shut_effect(*old(reg), *final(reg), self.id),
            ran_hooks(*old(reg), *final(reg), ran@),
            ran_counts(*old(reg), *final(reg), ran@),
            old(reg).offs()[self.id as int] ==> ran@.len() == 0,
            !old(reg).offs()[self.id as int] ==> ran@.len() >= old(reg).pending()[self.id as int].len()
                && ran@.subrange(ran@.len() - old(reg).pending()[self.id as int].len(), ran@.len() as int)
                    == old(reg).pending()[self.id as int],
    {
        reg.shut(self.id)
    }
}

} // verus!

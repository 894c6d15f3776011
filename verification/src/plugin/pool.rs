//! The idle instances of a plugin, bounded by the pool size.
use vstd::prelude::*;

verus! {

/// Idle plugin instances, at most `max_instances` of them. Callers hold
/// a slot while using an instance and put it back when done; an instance
/// put back into a full pool is dropped.
#[derive(Debug)]
pub struct InstancePool<T> {
    instances: Vec<T>,
    max_instances: usize,
}

impl<T> InstancePool<T> {
    /// The idle instances, oldest first.
    pub closed spec fn idle(&self) -> Seq<T> {
        self.instances@
    }

    /// The pool size.
    pub closed spec fn capacity(&self) -> nat {
        self.max_instances as nat
    }

    /// The pool never holds more idle instances than its size, which is
    /// at least one.
    pub closed spec fn wf(&self) -> bool {
        1 <= self.max_instances && self.instances@.len() <= self.max_instances
    }

    /// An empty pool of `max_instances` slots; `0` is treated as `1`.
    pub fn new(max_instances: usize) -> (p: Self)
        ensures
            p.wf(),
            p.capacity() == if max_instances == 0 { 1 } else { max_instances },
            p.idle() == Seq::<T>::empty(),
    {
        let max_instances = if max_instances < 1 { 1 } else { max_instances };
        InstancePool { instances: Vec::new(), max_instances }
    }

    /// A pool of `max_instances` slots holding one preallocated instance.
    pub fn with_first(max_instances: usize, first: T) -> (p: Self)
        ensures
            p.wf(),
            p.capacity() == if max_instances == 0 { 1 } else { max_instances },
            p.idle() == seq![first],
    {
        let mut p = InstancePool::new(max_instances);
        p.instances.push(first);
        assert(p.instances@ =~= seq![first]);
        p
    }

    /// Take an idle instance, the most recently returned one, if any.
    pub fn take(&mut self) -> (r: Option<T>)
        requires
            old(self).wf(),
        ensures
            final(self).wf(),
            final(self).capacity() == old(self).capacity(),
            old(self).idle().len() == 0 ==> r is None && final(self).idle() == old(self).idle(),
            old(self).idle().len() > 0 ==> r == Some(old(self).idle().last())
                && final(self).idle() == old(self).idle().drop_last(),
    {
        self.instances.pop()
    }

    /// Return an instance: kept when the pool has room, dropped
    /// otherwise.
    pub fn put_back(&mut self, plugin: T)
        requires
            old(self).wf(),
        ensures
            final(self).wf(),
            final(self).capacity() == old(self).capacity(),
            old(self).idle().len() < old(self).capacity() ==> final(self).idle() == old(self).idle().push(plugin),
            old(self).idle().len() >= old(self).capacity() ==> final(self).idle() == old(self).idle(),
    {
        if self.instances.len() < self.max_instances {
            self.instances.push(plugin);
        }
    }

    /// The pool size.
    pub fn max_instances(&self) -> (n: usize)
        ensures
            n == self.capacity(),
    {
        self.max_instances
    }

    /// Number of idle instances.
    pub fn idle_count(&self) -> (n: usize)
        ensures
            n == self.idle().len(),
    {
        self.instances.len()
    }
}

/// Taking an instance and putting it back leaves the pool as it was.
pub proof fn lemma_take_put_back<T>(idle: Seq<T>, capacity: nat)
    requires
        1 <= capacity,
        0 < idle.len() <= capacity,
    ensures
        idle.drop_last().len() < capacity,
        idle.drop_last().push(idle.last()) == idle,
{
    assert(idle.drop_last().push(idle.last()) =~= idle);
}

} // verus!

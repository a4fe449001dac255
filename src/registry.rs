//! The graph of shutdown handles and the operations on it.
use vstd::prelude::*;

use crate::signal::{fire, new_signal, subscribe};

verus! {

/// Identifies a cleanup hook; the caller keeps the hook itself under this key.
pub type HookId = u64;

/// How many listeners one handle hands out over its lifetime.
pub const MAX_SUBSCRIBERS: usize = usize::MAX >> 2;

/// Every shutdown handle of a process, as nodes `0..size()`.
///
/// Node `0` is the process root, the parent of the handles made by
/// [`ShutUp::new`].
pub struct Registry {
    off: Vec<bool>,
    children: Vec<Vec<usize>>,
    hooks: Vec<Vec<HookId>>,
    subs: Vec<usize>,
    signals: Vec<tokio::sync::broadcast::Sender<()>>,
}


/// `p` is a walk along child links of `r`, through nodes of `r`.
pub open spec fn is_path(r: Registry, p: Seq<usize>) -> bool {
    &&& p.len() >= 1
    &&& forall|i: int| 0 <= i < p.len() ==> (#[trigger] p[i]) < r.size()
    &&& forall|i: int| 0 <= i < p.len() - 1 ==> r.kids()[p[i] as int].contains(#[trigger] p[i + 1])
}

/// Node `b` is `a` or a descendant of `a` in `r`.
pub open spec fn reach(r: Registry, a: usize, b: usize) -> bool {
    exists|p: Seq<usize>| is_path(r, p) && p[0] == a && p.last() == b
}

/// Node `n` is shut in `b` and was not in `a`.
pub open spec fn newly(a: Registry, b: Registry, n: int) -> bool {
    !a.offs()[n] && b.offs()[n]
}

/// What `shut(h)` does to the graph, from `a` to `b`: `h` ends shut, no flag
/// is cleared, each node it shuts loses its children and hooks and has all its
/// former children shut, every node it shuts descends from `h`, and nothing
/// else changes.
pub open spec fn shut_effect(a: Registry, b: Registry, h: usize) -> bool {
    &&& b.wf()
    &&& b.size() == a.size()
    &&& b.listeners() == a.listeners()
    &&& b.offs()[h as int]
    &&& a.offs()[h as int] ==> b == a
    &&& forall|n: int| 0 <= n < a.size() && a.offs()[n] ==> #[trigger] b.offs()[n]
    &&& forall|n: int| 0 <= n < a.size() && #[trigger] newly(a, b, n) ==> b.kids()[n] == Seq::<usize>::empty() && b.pending()[n] == Seq::<HookId>::empty()
    &&& forall|n: int| 0 <= n < a.size() && !#[trigger] newly(a, b, n) ==> b.kids()[n] == a.kids()[n] && b.pending()[n] == a.pending()[n]
    &&& forall|n: int, j: int| 0 <= n < a.size() && newly(a, b, n) && 0 <= j < a.kids()[n].len() ==> b.offs()[#[trigger] a.kids()[n][j] as int]
    &&& forall|n: int| 0 <= n < a.size() && #[trigger] newly(a, b, n) ==> reach(a, h, n as usize)
}

/// `ids` are the hooks that were pending, in `a`, on the nodes shut between
/// `a` and `b`.
pub open spec fn ran_hooks(a: Registry, b: Registry, ids: Seq<HookId>) -> bool {
    forall|x: HookId| ids.contains(x) <==> exists|n: int| 0 <= n < a.size() && #[trigger] newly(a, b, n) && a.pending()[n].contains(x)
}

/// How many times hook `x` was pending, in `a`, on those of the nodes
/// `0..k` that were shut between `a` and `b`.
pub open spec fn pending_count(a: Registry, b: Registry, x: HookId, k: int) -> nat
    decreases k,
{
    if k <= 0 {
        0
    } else {
        pending_count(a, b, x, k - 1) + if newly(a, b, k - 1) {
            a.pending()[k - 1].to_multiset().count(x)
        } else {
            0
        }
    }
}

/// `ids` holds each hook exactly as many times as it was pending, in `a`, on
/// the nodes shut between `a` and `b`: every such hook runs once per
/// registration, and no other hook runs.
pub open spec fn ran_counts(a: Registry, b: Registry, ids: Seq<HookId>) -> bool {
    forall|x: HookId| #[trigger] ids.to_multiset().count(x) == pending_count(a, b, x, a.size() as int)
}

/// Where only `h` can have been shut between `a` and `b`, the count is that
/// of `h`'s hooks, or nothing.
proof fn lemma_count_only(a: Registry, b: Registry, x: HookId, h: int, k: int)
    requires
        forall|n: int| 0 <= n < k && #[trigger] newly(a, b, n) ==> n == h,
    ensures
        pending_count(a, b, x, k) == if 0 <= h < k && newly(a, b, h) {
            a.pending()[h].to_multiset().count(x)
        } else {
            0
        },
    decreases k,
{
    if k > 0 {
        lemma_count_only(a, b, x, h, k - 1);
    }
}

/// Counts over two steps add up, where no flag is cleared and a node not shut
/// in the first step keeps its hooks.
proof fn lemma_count_split(a: Registry, pre: Registry, post: Registry, x: HookId, k: int)
    requires
        0 <= k <= a.size(),
        forall|n: int| 0 <= n < a.size() && a.offs()[n] ==> #[trigger] pre.offs()[n],
        forall|n: int| 0 <= n < a.size() && pre.offs()[n] ==> #[trigger] post.offs()[n],
        forall|n: int| 0 <= n < a.size() && !#[trigger] newly(a, pre, n) ==> pre.pending()[n] == a.pending()[n],
    ensures
        pending_count(a, post, x, k) == pending_count(a, pre, x, k) + pending_count(pre, post, x, k),
    decreases k,
{
    if k > 0 {
        lemma_count_split(a, pre, post, x, k - 1);
        let n = k - 1;
        if !pre.offs()[n] {
            assert(!newly(a, pre, n));
        }
    }
}

/// A node shut between `a` and `b` adds its hooks to the count.
pub proof fn lemma_count_ge(a: Registry, b: Registry, x: HookId, n: int, k: int)
    requires
        0 <= n < k,
        newly(a, b, n),
    ensures
        pending_count(a, b, x, k) >= a.pending()[n].to_multiset().count(x),
    decreases k,
{
    if n < k - 1 {
        lemma_count_ge(a, b, x, n, k - 1);
    }
}

/// Number of nodes not shut.
pub open spec fn live(s: Seq<bool>) -> nat
    decreases s.len(),
{
    if s.len() == 0 {
        0
    } else {
        live(s.drop_last()) + if s.last() { 0nat } else { 1nat }
    }
}

proof fn lemma_live_mono(a: Seq<bool>, b: Seq<bool>)
    requires
        a.len() == b.len(),
        forall|i: int| 0 <= i < a.len() && a[i] ==> b[i],
    ensures
        live(b) <= live(a),
    decreases a.len(),
{
    if a.len() > 0 {
        lemma_live_mono(a.drop_last(), b.drop_last());
    }
}

proof fn lemma_live_strict(a: Seq<bool>, b: Seq<bool>, k: int)
    requires
        a.len() == b.len(),
        forall|i: int| 0 <= i < a.len() && a[i] ==> b[i],
        0 <= k < a.len(),
        !a[k],
        b[k],
    ensures
        live(b) < live(a),
    decreases a.len(),
{
    if k == a.len() - 1 {
        lemma_live_mono(a.drop_last(), b.drop_last());
    } else {
        lemma_live_strict(a.drop_last(), b.drop_last(), k);
    }
}

/// A walk in `b` from a child `c` of `h` in `a` extends to a walk in `a` from
/// `h`, where every child link of `b` is one of `a`.
proof fn lemma_reach_extend(a: Registry, b: Registry, h: usize, c: usize, n: usize)
    requires
        a.wf(),
        b.wf(),
        a.size() == b.size(),
        h < a.size(),
        a.kids()[h as int].contains(c),
        forall|m: int, x: usize| 0 <= m < a.size() && #[trigger] b.kids()[m].contains(x) ==> a.kids()[m].contains(x),
        reach(b, c, n),
    ensures
        reach(a, h, n),
{
    let p = choose|p: Seq<usize>| is_path(b, p) && p[0] == c && p.last() == n;
    let q = seq![h].add(p);
    assert forall|i: int| 0 <= i < q.len() - 1 implies a.kids()[q[i] as int].contains(#[trigger] q[i + 1]) by {
        if i > 0 {
            let k = i - 1;
            assert(q[i] == p[k] && q[i + 1] == p[k + 1]);
            assert(p[k] < b.size());
            assert(b.kids()[p[k] as int].contains(p[k + 1]));
        }
    }
    assert forall|i: int| 0 <= i < q.len() implies (#[trigger] q[i]) < a.size() by {
        if i > 0 {
            assert(q[i] == p[i - 1]);
        }
    }
    assert(is_path(a, q) && q[0] == h && q.last() == n);
}

impl Registry {
    /// Number of nodes.
    pub closed spec fn size(&self) -> nat {
        self.off@.len()
    }

    /// Shut flag of each node.
    pub closed spec fn offs(&self) -> Seq<bool> {
        self.off@
    }

    /// Children of each node, in the order they were added.
    pub closed spec fn kids(&self) -> Seq<Seq<usize>> {
        Seq::new(self.children@.len(), |n: int| self.children@[n]@)
    }

    /// Pending hooks of each node, in the order they were registered.
    pub closed spec fn pending(&self) -> Seq<Seq<HookId>> {
        Seq::new(self.hooks@.len(), |n: int| self.hooks@[n]@)
    }

    /// Listeners handed out by each node.
    pub closed spec fn listeners(&self) -> Seq<usize> {
        self.subs@
    }

    /// All per-node tables have one entry per node and every child is a node.
    pub closed spec fn wf(&self) -> bool {
        &&& self.off@.len() >= 1
        &&& self.children@.len() == self.off@.len()
        &&& self.hooks@.len() == self.off@.len()
        &&& self.subs@.len() == self.off@.len()
        &&& self.signals@.len() == self.off@.len()
        &&& forall|n: int, j: int|
            0 <= n < self.children@.len() && 0 <= j < self.children@[n]@.len()
                ==> (#[trigger] self.children@[n]@[j]) < self.off@.len()
    }

    /// The model's tables all have `size()` entries.
    pub proof fn lemma_wf_lens(&self)
        requires
            self.wf(),
        ensures
            self.size() >= 1,
            self.offs().len() == self.size(),
            self.kids().len() == self.size(),
            self.pending().len() == self.size(),
            self.listeners().len() == self.size(),
            forall|n: int, j: int|
                0 <= n < self.size() && 0 <= j < self.kids()[n].len()
                    ==> (#[trigger] self.kids()[n][j]) < self.size(),
    {
    }

    /// A registry that holds only the process root, not shut.
    pub fn new() -> (r: Registry)
        ensures
            r.wf(),
            r.size() == 1,
            r.offs() == seq![false],
            r.kids() == seq![Seq::<usize>::empty()],
            r.pending() == seq![Seq::<HookId>::empty()],
            r.listeners() == seq![0usize],
    {
        let mut children: Vec<Vec<usize>> = Vec::new();
        children.push(Vec::new());
        let mut hooks: Vec<Vec<HookId>> = Vec::new();
        hooks.push(Vec::new());
        let mut signals: Vec<tokio::sync::broadcast::Sender<()>> = Vec::new();
        signals.push(new_signal());
        let r = Registry { off: vec![false], children, hooks, subs: vec![0], signals };
        assert(r.offs() =~= seq![false]);
        assert(r.listeners() =~= seq![0usize]);
        assert(r.kids() =~= seq![Seq::<usize>::empty()]);
        assert(r.pending() =~= seq![Seq::<HookId>::empty()]);
        r
    }

    /// Number of nodes.
    pub fn len(&self) -> (r: usize)
        ensures
            r == self.size(),
    {
        self.off.len()
    }

    /// Listeners handed out by node `h`.
    pub fn listener_count(&self, h: usize) -> (r: usize)
        requires
            self.wf(),
            h < self.size(),
        ensures
            r == self.listeners()[h as int],
    {
        self.subs[h]
    }

    /// Adds a node with no parent: not shut, no children, no hooks.
    pub fn add_node(&mut self) -> (r: usize)
        requires
            old(self).wf(),
            old(self).size() < usize::MAX,
        ensures
            final(self).wf(),
            r == old(self).size(),
            final(self).size() == old(self).size() + 1,
            final(self).offs() == old(self).offs().push(false),
            final(self).kids() == old(self).kids().push(Seq::empty()),
            final(self).pending() == old(self).pending().push(Seq::empty()),
            final(self).listeners() == old(self).listeners().push(0),
    {
        let r = self.off.len();
        self.off.push(false);
        self.children.push(Vec::new());
        self.hooks.push(Vec::new());
        self.subs.push(0);
        self.signals.push(new_signal());
        assert(self.kids() =~= old(self).kids().push(Seq::empty()));
        assert(self.pending() =~= old(self).pending().push(Seq::empty()));
        r
    }

    /// Appends `c` to the children of `p`.
    pub fn add_child(&mut self, p: usize, c: usize)
        requires
            old(self).wf(),
            p < old(self).size(),
            c < old(self).size(),
        ensures
            final(self).wf(),
            final(self).size() == old(self).size(),
            final(self).offs() == old(self).offs(),
            final(self).kids() == old(self).kids().update(p as int, old(self).kids()[p as int].push(c)),
            final(self).pending() == old(self).pending(),
            final(self).listeners() == old(self).listeners(),
    {
        self.children[p].push(c);
        assert(self.kids() =~= old(self).kids().update(p as int, old(self).kids()[p as int].push(c)));
        assert(self.pending() =~= old(self).pending());
        assert forall|n: int, j: int|
            0 <= n < self.children@.len() && 0 <= j < self.children@[n]@.len()
                implies (#[trigger] self.children@[n]@[j]) < self.off@.len() by {
            if n != p as int || j < old(self).children@[n]@.len() {
                assert(self.children@[n]@[j] == old(self).children@[n]@[j]);
            }
        }
    }

    /// Whether node `h` is shut.
    pub fn is_off(&self, h: usize) -> (r: bool)
        requires
            self.wf(),
            h < self.size(),
        ensures
            r == self.offs()[h as int],
    {
        self.off[h]
    }

    /// Queues hook `hook` on node `h`, or, where `h` is already shut, leaves
    /// everything as it is and returns `true`: the caller then runs the hook
    /// at once.
    pub fn add_hook(&mut self, h: usize, hook: HookId) -> (run_now: bool)
        requires
            old(self).wf(),
            h < old(self).size(),
        ensures
            final(self).wf(),
            run_now == old(self).offs()[h as int],
            run_now ==> *final(self) == *old(self),
            final(self).size() == old(self).size(),
            final(self).offs() == old(self).offs(),
            final(self).kids() == old(self).kids(),
            final(self).listeners() == old(self).listeners(),
            final(self).pending() == if run_now {
                old(self).pending()
            } else {
                old(self).pending().update(h as int, old(self).pending()[h as int].push(hook))
            },
    {
        if self.off[h] {
            return true;
        }
        self.hooks[h].push(hook);
        assert(self.kids() =~= old(self).kids());
        assert(self.pending() =~= old(self).pending().update(h as int, old(self).pending()[h as int].push(hook)));
        false
    }

    /// A listener on the signal of node `h`, or `None` where `h` is already
    /// shut, so that a late waiter never waits for a signal that has passed.
    pub fn listen(&mut self, h: usize) -> (r: Option<tokio::sync::broadcast::Receiver<()>>)
        requires
            old(self).wf(),
            h < old(self).size(),
            old(self).listeners()[h as int] < MAX_SUBSCRIBERS,
        ensures
            final(self).wf(),
            r.is_none() == old(self).offs()[h as int],
            final(self).size() == old(self).size(),
            final(self).offs() == old(self).offs(),
            final(self).kids() == old(self).kids(),
            final(self).pending() == old(self).pending(),
            final(self).listeners() == if r.is_none() {
                old(self).listeners()
            } else {
                old(self).listeners().update(h as int, (old(self).listeners()[h as int] + 1) as usize)
            },
    {
        if self.off[h] {
            return None;
        }
        self.subs[h] = self.subs[h] + 1;
        let rx = subscribe(&self.signals[h]);
        assert(self.kids() =~= old(self).kids());
        assert(self.pending() =~= old(self).pending());
        Some(rx)
    }
    /// Shuts node `h`: fires its signal, marks it shut, shuts each of its
    /// former children in turn and returns the hooks to run, those of the
    /// nodes shut on the way, each node's after its children's, `h`'s last.
    /// A node already shut is left alone, so a second call does nothing.
    pub fn shut(&mut self, h: usize) -> (ran: Vec<HookId>)
        requires
            old(self).wf(),
            h < old(self).size(),
        ensures
            shut_effect(*old(self), *final(self), h),
            ran_hooks(*old(self), *final(self), ran@),
            ran_counts(*old(self), *final(self), ran@),
            old(self).offs()[h as int] ==> ran@.len() == 0,
            !old(self).offs()[h as int] ==> ran@.len() >= old(self).pending()[h as int].len()
                && ran@.subrange(ran@.len() - old(self).pending()[h as int].len(), ran@.len() as int)
                    == old(self).pending()[h as int],
    {
        self.shut_from(h, Ghost(live(self.offs())))
    }

    fn shut_from(&mut self, h: usize, Ghost(fuel): Ghost<nat>) -> (ran: Vec<HookId>)
        requires
            old(self).wf(),
            h < old(self).size(),
            live(old(self).offs()) <= fuel,
        ensures
            shut_effect(*old(self), *final(self), h),
            ran_hooks(*old(self), *final(self), ran@),
            ran_counts(*old(self), *final(self), ran@),
            old(self).offs()[h as int] ==> ran@.len() == 0,
            !old(self).offs()[h as int] ==> ran@.len() >= old(self).pending()[h as int].len()
                && ran@.subrange(ran@.len() - old(self).pending()[h as int].len(), ran@.len() as int)
                    == old(self).pending()[h as int],
        decreases fuel,
    {
        if self.off[h] {
            let r: Vec<HookId> = Vec::new();
            proof {
                assert forall|x: HookId| #[trigger] r@.to_multiset().count(x) == pending_count(*self, *self, x, self.size() as int) by {
                    broadcast use vstd::seq_lib::group_to_multiset_ensures;
                    lemma_count_only(*self, *self, x, h as int, self.size() as int);
                    assert(!r@.contains(x));
                }
            }
            return r;
        }
        let ghost a = *self;
        fire(&self.signals[h]);
        self.off[h] = true;
        let mut kids: Vec<usize> = Vec::new();
        std::mem::swap(&mut kids, &mut self.children[h]);
        let mut own: Vec<HookId> = Vec::new();
        std::mem::swap(&mut own, &mut self.hooks[h]);
        assert(self.kids() =~= a.kids().update(h as int, Seq::empty()));
        assert(self.pending() =~= a.pending().update(h as int, Seq::empty()));
        assert(kids@ == a.kids()[h as int]);
        assert(own@ == a.pending()[h as int]);
        assert forall|n: int, j: int|
            0 <= n < self.children@.len() && 0 <= j < self.children@[n]@.len()
                implies (#[trigger] self.children@[n]@[j]) < self.off@.len() by {
            assert(self.children@[n]@[j] == a.children@[n]@[j]);
        }
        assert forall|n: int| 0 <= n < a.size() && #[trigger] newly(a, *self, n) implies reach(a, h, n as usize) by {
            assert(n == h as int);
            let p = seq![h];
            assert(is_path(a, p) && p[0] == h && p.last() == h);
        }
        let mut ids: Vec<HookId> = Vec::new();
        proof {
            assert forall|x: HookId| #[trigger] ids@.to_multiset().count(x) + a.pending()[h as int].to_multiset().count(x)
                == pending_count(a, *self, x, a.size() as int) by {
                broadcast use vstd::seq_lib::group_to_multiset_ensures;
                assert(!ids@.contains(x));
                lemma_count_only(a, *self, x, h as int, a.size() as int);
            }
        }
        let mut i: usize = 0;
        while i < kids.len()
            invariant
                self.wf(),
                a.wf(),
                live(a.offs()) <= fuel,
                self.size() == a.size(),
                self.listeners() == a.listeners(),
                h < a.size(),
                !a.offs()[h as int],
                self.offs()[h as int],
                kids@ == a.kids()[h as int],
                own@ == a.pending()[h as int],
                0 <= i <= kids.len(),
                forall|n: int| 0 <= n < a.size() && a.offs()[n] ==> #[trigger] self.offs()[n],
                forall|n: int| 0 <= n < a.size() && #[trigger] newly(a, *self, n) ==> self.kids()[n] == Seq::<usize>::empty() && self.pending()[n] == Seq::<HookId>::empty(),
                forall|n: int| 0 <= n < a.size() && !#[trigger] newly(a, *self, n) ==> self.kids()[n] == a.kids()[n] && self.pending()[n] == a.pending()[n],
                forall|n: int, j: int| 0 <= n < a.size() && n != h && newly(a, *self, n) && 0 <= j < a.kids()[n].len() ==> self.offs()[#[trigger] a.kids()[n][j] as int],
                forall|j: int| 0 <= j < i ==> self.offs()[#[trigger] kids@[j] as int],
                forall|n: int| 0 <= n < a.size() && #[trigger] newly(a, *self, n) ==> reach(a, h, n as usize),
                forall|x: HookId| ids@.contains(x) <==> exists|n: int| 0 <= n < a.size() && n != h && #[trigger] newly(a, *self, n) && a.pending()[n].contains(x),
                forall|x: HookId| #[trigger] ids@.to_multiset().count(x) + a.pending()[h as int].to_multiset().count(x)
                    == pending_count(a, *self, x, a.size() as int),
            decreases kids.len() - i,
        {
            let c = kids[i];
            let ghost pre = *self;
            proof {
                a.lemma_wf_lens();
                lemma_live_strict(a.offs(), self.offs(), h as int);
            }
            let mut sub = self.shut_from(c, Ghost((fuel - 1) as nat));
            let ghost post = *self;
            let ghost before = ids@;
            let ghost subv = sub@;
            ids.append(&mut sub);
            proof {
                pre.lemma_wf_lens();
                assert forall|x: HookId| #[trigger] ids@.to_multiset().count(x) + a.pending()[h as int].to_multiset().count(x)
                    == pending_count(a, post, x, a.size() as int) by {
                    vstd::seq_lib::lemma_multiset_commutative(before, subv);
                    assert(ids@ == before + subv);
                    assert(before.to_multiset().count(x) + a.pending()[h as int].to_multiset().count(x)
                        == pending_count(a, pre, x, a.size() as int));
                    assert(subv.to_multiset().count(x) == pending_count(pre, post, x, pre.size() as int));
                    lemma_count_split(a, pre, post, x, a.size() as int);
                }
                assert forall|n: int| 0 <= n < a.size() && #[trigger] newly(a, post, n) implies post.kids()[n] == Seq::<usize>::empty() && post.pending()[n] == Seq::<HookId>::empty() by {
                    if newly(a, pre, n) {
                        assert(!newly(pre, post, n));
                    } else {
                        assert(newly(pre, post, n));
                    }
                }
                assert forall|n: int| 0 <= n < a.size() && !#[trigger] newly(a, post, n) implies post.kids()[n] == a.kids()[n] && post.pending()[n] == a.pending()[n] by {
                    assert(!newly(a, pre, n));
                    assert(!newly(pre, post, n));
                }
                assert forall|n: int| 0 <= n < a.size() && #[trigger] newly(a, post, n) implies reach(a, h, n as usize) by {
                    if newly(pre, post, n) {
                        assert forall|m: int, x: usize| 0 <= m < a.size() && #[trigger] pre.kids()[m].contains(x) implies a.kids()[m].contains(x) by {
                            if newly(a, pre, m) {
                                assert(pre.kids()[m].len() == 0);
                            }
                        }
                        assert(a.kids()[h as int].contains(c)) by {
                            assert(kids@[i as int] == c);
                        }
                        lemma_reach_extend(a, pre, h, c, n as usize);
                    }
                }
                assert forall|x: HookId| ids@.contains(x) <==> exists|n: int| 0 <= n < a.size() && n != h && #[trigger] newly(a, post, n) && a.pending()[n].contains(x) by {
                    if ids@.contains(x) {
                        let k = choose|k: int| 0 <= k < ids@.len() && ids@[k] == x;
                        if k < before.len() {
                            assert(before[k] == x);
                            assert(before.contains(x));
                            let n = choose|n: int| 0 <= n < a.size() && n != h && #[trigger] newly(a, pre, n) && a.pending()[n].contains(x);
                            assert(newly(a, post, n));
                        } else {
                            assert(subv[k - before.len()] == x);
                            assert(subv.contains(x));
                            let n = choose|n: int| 0 <= n < pre.size() && #[trigger] newly(pre, post, n) && pre.pending()[n].contains(x);
                            assert(!newly(a, pre, n));
                            assert(pre.pending()[n] == a.pending()[n]);
                            assert(n != h);
                            assert(newly(a, post, n));
                        }
                    }
                    if exists|n: int| 0 <= n < a.size() && n != h && #[trigger] newly(a, post, n) && a.pending()[n].contains(x) {
                        let n = choose|n: int| 0 <= n < a.size() && n != h && #[trigger] newly(a, post, n) && a.pending()[n].contains(x);
                        if newly(a, pre, n) {
                            assert(before.contains(x));
                            let k = choose|k: int| 0 <= k < before.len() && before[k] == x;
                            assert(ids@[k] == x);
                        } else {
                            assert(pre.pending()[n] == a.pending()[n]);
                            assert(newly(pre, post, n));
                            assert(subv.contains(x));
                            let k = choose|k: int| 0 <= k < subv.len() && subv[k] == x;
                            assert(ids@[before.len() + k] == x);
                        }
                    }
                }
                assert forall|j: int| 0 <= j < i + 1 implies post.offs()[#[trigger] kids@[j] as int] by {
                    if j < i {
                        assert(pre.offs()[kids@[j] as int]);
                    }
                }
                assert forall|n: int, j: int| 0 <= n < a.size() && n != h && newly(a, post, n) && 0 <= j < a.kids()[n].len() implies post.offs()[#[trigger] a.kids()[n][j] as int] by {
                    if newly(a, pre, n) {
                        assert(pre.offs()[a.kids()[n][j] as int]);
                    } else {
                        assert(newly(pre, post, n));
                        assert(pre.kids()[n] == a.kids()[n]);
                        assert(pre.kids()[n][j] == a.kids()[n][j]);
                    }
                }
            }
            i = i + 1;
        }
        let ghost before = ids@;
        ids.append(&mut own);
        proof {
            assert forall|x: HookId| #[trigger] ids@.to_multiset().count(x) == pending_count(a, *self, x, a.size() as int) by {
                vstd::seq_lib::lemma_multiset_commutative(before, a.pending()[h as int]);
                assert(ids@ == before + a.pending()[h as int]);
                assert(before.to_multiset().count(x) + a.pending()[h as int].to_multiset().count(x)
                    == pending_count(a, *self, x, a.size() as int));
            }
            assert forall|x: HookId| ids@.contains(x) <==> exists|n: int| 0 <= n < a.size() && #[trigger] newly(a, *self, n) && a.pending()[n].contains(x) by {
                if ids@.contains(x) {
                    let k = choose|k: int| 0 <= k < ids@.len() && ids@[k] == x;
                    if k < before.len() {
                        assert(before[k] == x);
                        assert(before.contains(x));
                    } else {
                        assert(a.pending()[h as int][k - before.len()] == x);
                        assert(newly(a, *self, h as int));
                    }
                }
                if exists|n: int| 0 <= n < a.size() && #[trigger] newly(a, *self, n) && a.pending()[n].contains(x) {
                    let n = choose|n: int| 0 <= n < a.size() && #[trigger] newly(a, *self, n) && a.pending()[n].contains(x);
                    if n != h {
                        assert(newly(a, *self, n));
                        assert(before.contains(x));
                        let k = choose|k: int| 0 <= k < before.len() && before[k] == x;
                        assert(ids@[k] == x);
                    } else {
                        let k = choose|k: int| 0 <= k < a.pending()[h as int].len() && a.pending()[h as int][k] == x;
                        assert(ids@[before.len() + k] == x);
                    }
                }
            }
            assert(ids@.subrange(ids@.len() - a.pending()[h as int].len(), ids@.len() as int) =~= a.pending()[h as int]);
            assert forall|n: int, j: int| 0 <= n < a.size() && newly(a, *self, n) && 0 <= j < a.kids()[n].len() implies self.offs()[#[trigger] a.kids()[n][j] as int] by {
                if n == h {
                    assert(kids@[j] == a.kids()[n][j]);
                }
            }
        }
        ids
    }
}

} // verus!

//! Properties of shutdown that relate several operations, proved from their
//! contracts.
use vstd::prelude::*;

use crate::registry::{
    is_path, lemma_count_ge, newly, pending_count, ran_counts, ran_hooks, reach, shut_effect, HookId,
    Registry,
};

verus! {

/// A handle is shut once a shutdown of it returns, and a shutdown never
/// clears the flag of any handle.
pub proof fn shut_sets_flag(a: Registry, b: Registry, h: usize)
    requires
        a.wf(),
        h < a.size(),
        shut_effect(a, b, h),
    ensures
        b.offs()[h as int],
        forall|n: int| 0 <= n < a.size() && a.offs()[n] ==> #[trigger] b.offs()[n],
{
}

/// Shutting `p[0]` shuts every handle along a chain of child links `p` whose
/// handles were all still open: propagation reaches any depth.
pub proof fn shut_reaches_descendants(a: Registry, b: Registry, p: Seq<usize>)
    requires
        a.wf(),
        is_path(a, p),
        shut_effect(a, b, p[0]),
        forall|i: int| 0 <= i < p.len() ==> !a.offs()[#[trigger] p[i] as int],
    ensures
        forall|i: int| 0 <= i < p.len() ==> b.offs()[#[trigger] p[i] as int],
    decreases p.len(),
{
    if p.len() > 1 {
        let q = p.drop_last();
        assert(is_path(a, q)) by {
            assert forall|i: int| 0 <= i < q.len() - 1 implies a.kids()[q[i] as int].contains(#[trigger] q[i + 1]) by {
                assert(q[i] == p[i] && q[i + 1] == p[i + 1]);
            }
        }
        shut_reaches_descendants(a, b, q);
        let k = p.len() - 2;
        assert(b.offs()[q[k] as int]);
        assert(newly(a, b, p[k] as int));
        assert(a.kids()[p[k] as int].contains(p[k + 1]));
        let j = choose|j: int| 0 <= j < a.kids()[p[k] as int].len() && a.kids()[p[k] as int][j] == p[k + 1];
        assert(b.offs()[a.kids()[p[k] as int][j] as int]);
        assert forall|i: int| 0 <= i < p.len() implies b.offs()[#[trigger] p[i] as int] by {
            if i < p.len() - 1 {
                assert(q[i] == p[i]);
            }
        }
    }
}

/// A second shutdown of a handle changes nothing and runs no hook, while the
/// first ran every hook that was pending on the handles it shut, each as many
/// times as it was registered there: over both calls each registration runs
/// once.
pub proof fn shut_twice_runs_hooks_once(
    a: Registry,
    b: Registry,
    c: Registry,
    h: usize,
    first: Seq<HookId>,
    second: Seq<HookId>,
)
    requires
        a.wf(),
        h < a.size(),
        !a.offs()[h as int],
        shut_effect(a, b, h),
        ran_hooks(a, b, first),
        ran_counts(a, b, first),
        shut_effect(b, c, h),
        ran_hooks(b, c, second),
    ensures
        c == b,
        second.len() == 0,
        forall|x: HookId| a.pending()[h as int].contains(x) ==> #[trigger] first.contains(x),
        forall|x: HookId| #[trigger] first.to_multiset().count(x) + second.to_multiset().count(x)
            == pending_count(a, b, x, a.size() as int),
        forall|x: HookId| #[trigger] first.to_multiset().count(x) >= a.pending()[h as int].to_multiset().count(x),
        b.pending()[h as int] == Seq::<HookId>::empty(),
{
    assert(newly(a, b, h as int));
    assert forall|x: HookId| a.pending()[h as int].contains(x) implies #[trigger] first.contains(x) by {
        assert(newly(a, b, h as int));
    }
    if second.len() > 0 {
        assert(second.contains(second[0]));
        let n = choose|n: int| 0 <= n < b.size() && #[trigger] newly(b, c, n) && b.pending()[n].contains(second[0]);
        assert(c == b);
    }
    assert forall|x: HookId| #[trigger] first.to_multiset().count(x) + second.to_multiset().count(x)
        == pending_count(a, b, x, a.size() as int) by {
        assert(second =~= Seq::<HookId>::empty());
        assert(second.to_multiset().count(x) == 0) by {
            broadcast use vstd::seq_lib::group_to_multiset_ensures;
            assert(!second.contains(x));
        }
    }
    assert forall|x: HookId| #[trigger] first.to_multiset().count(x) >= a.pending()[h as int].to_multiset().count(x) by {
        lemma_count_ge(a, b, x, h as int, a.size() as int);
    }
}

/// A shutdown of `x` runs no hook of a handle `g` out of its reach and leaves
/// `g` as it was; a handle that it does shut has each of its hooks run at
/// least as many times as it was registered there.
pub proof fn hooks_follow_own_shutdown(a: Registry, b: Registry, x: usize, g: usize, ran: Seq<HookId>)
    requires
        a.wf(),
        x < a.size(),
        g < a.size(),
        shut_effect(a, b, x),
        ran_hooks(a, b, ran),
        ran_counts(a, b, ran),
    ensures
        !reach(a, x, g) ==> !newly(a, b, g as int) && b.pending()[g as int] == a.pending()[g as int]
            && b.offs()[g as int] == a.offs()[g as int],
        newly(a, b, g as int) ==> forall|y: HookId| a.pending()[g as int].contains(y) ==> #[trigger] ran.contains(y),
        newly(a, b, g as int) ==> forall|y: HookId| #[trigger] ran.to_multiset().count(y)
            >= a.pending()[g as int].to_multiset().count(y),
{
    if newly(a, b, g as int) {
        assert forall|y: HookId| #[trigger] ran.to_multiset().count(y) >= a.pending()[g as int].to_multiset().count(y) by {
            lemma_count_ge(a, b, y, g as int, a.size() as int);
        }
    }
}

/// A handle adopted by two parents is shut by the shutdown of the first, which
/// runs its hooks, and the shutdown of the second leaves it, and its drained
/// hooks, alone: its hooks run once.
pub proof fn adopted_twice_shut_once(
    a: Registry,
    b: Registry,
    c: Registry,
    pa: usize,
    pb: usize,
    x: usize,
    first: Seq<HookId>,
)
    requires
        a.wf(),
        pa < a.size(),
        pb < a.size(),
        x < a.size(),
        a.kids()[pa as int].contains(x),
        a.kids()[pb as int].contains(x),
        !a.offs()[pa as int],
        !a.offs()[x as int],
        shut_effect(a, b, pa),
        ran_counts(a, b, first),
        shut_effect(b, c, pb),
    ensures
        b.offs()[x as int],
        c.offs()[x as int],
        !newly(b, c, x as int),
        c.pending()[x as int] == Seq::<HookId>::empty(),
        forall|y: HookId| #[trigger] first.to_multiset().count(y) >= a.pending()[x as int].to_multiset().count(y),
{
    a.lemma_wf_lens();
    let j = choose|j: int| 0 <= j < a.kids()[pa as int].len() && a.kids()[pa as int][j] == x;
    assert(newly(a, b, pa as int));
    assert(b.offs()[a.kids()[pa as int][j] as int]);
    assert(newly(a, b, x as int));
    assert(!newly(b, c, x as int));
    assert forall|y: HookId| #[trigger] first.to_multiset().count(y) >= a.pending()[x as int].to_multiset().count(y) by {
        lemma_count_ge(a, b, y, x as int, a.size() as int);
    }
}

/// Where `x` is registered once on `h` and on no other handle, the hook runs
/// exactly once over two shutdowns of `h`.
pub proof fn single_hook_runs_once(
    a: Registry,
    b: Registry,
    c: Registry,
    h: usize,
    x: HookId,
    first: Seq<HookId>,
    second: Seq<HookId>,
)
    requires
        a.wf(),
        h < a.size(),
        !a.offs()[h as int],
        a.pending()[h as int].to_multiset().count(x) == 1,
        forall|n: int| 0 <= n < a.size() && n != h ==> #[trigger] a.pending()[n].to_multiset().count(x) == 0,
        shut_effect(a, b, h),
        ran_hooks(a, b, first),
        ran_counts(a, b, first),
        shut_effect(b, c, h),
        ran_hooks(b, c, second),
    ensures
        first.to_multiset().count(x) == 1,
        second.len() == 0,
{
    shut_twice_runs_hooks_once(a, b, c, h, first, second);
    lemma_count_single(a, b, x, h as int, a.size() as int);
    assert(newly(a, b, h as int));
}

proof fn lemma_count_single(a: Registry, b: Registry, x: HookId, h: int, k: int)
    requires
        0 <= h < k <= a.size(),
        forall|n: int| 0 <= n < a.size() && n != h ==> #[trigger] a.pending()[n].to_multiset().count(x) == 0,
    ensures
        pending_count(a, b, x, k) == if newly(a, b, h) {
            a.pending()[h].to_multiset().count(x)
        } else {
            0
        },
    decreases k,
{
    if k - 1 > h {
        lemma_count_single(a, b, x, h, k - 1);
        assert(a.pending()[k - 1].to_multiset().count(x) == 0);
    } else {
        lemma_count_zero(a, b, x, h);
    }
}

proof fn lemma_count_zero(a: Registry, b: Registry, x: HookId, k: int)
    requires
        k <= a.size(),
        forall|n: int| 0 <= n < k ==> #[trigger] a.pending()[n].to_multiset().count(x) == 0,
    ensures
        pending_count(a, b, x, k) == 0,
    decreases k,
{
    if k > 0 {
        lemma_count_zero(a, b, x, k - 1);
    }
}

} // verus!

//! Puts items that arrive in any order back into the order of their numbers.

use std::collections::HashMap;
use vstd::prelude::*;

verus! {

broadcast use vstd::std_specs::hash::group_hash_axioms;

/// Items that wait for one with a lower number.
pub struct Reorder<T> {
    pending: HashMap<u64, T>,
    next_idx: u64,
}

/// What is waiting, and the number that is waited for.
pub struct Waiting<T> {
    pub pending: Map<u64, T>,
    pub next: u64,
}

/// The state before anything has arrived.
pub open spec fn nothing_yet<T>() -> Waiting<T> {
    Waiting { pending: Map::empty(), next: 0 }
}

/// One arrival: `out` is the run of items from the number waited for up to the
/// next one that is missing.
pub open spec fn takes_in<T>(
    before: Waiting<T>,
    index: u64,
    item: T,
    after: Waiting<T>,
    out: Seq<T>,
) -> bool {
    let all = before.pending.insert(index, item);
    &&& before.next + out.len() == after.next
    &&& forall|k: u64|
        before.next <= k < after.next ==> #[trigger] all.contains_key(k) && out[k - before.next]
            == all[k]
    &&& !all.contains_key(after.next)
    &&& forall|k: u64| #[trigger]
        after.pending.contains_key(k) <==> all.contains_key(k) && !(before.next <= k < after.next)
    &&& forall|k: u64| #[trigger] after.pending.contains_key(k) ==> after.pending[k] == all[k]
}

impl<T> View for Reorder<T> {
    type V = Waiting<T>;

    closed spec fn view(&self) -> Waiting<T> {
        Waiting { pending: self.pending@, next: self.next_idx }
    }
}

impl<T> Reorder<T> {
    pub fn new() -> (r: Self)
        ensures
            r@ == nothing_yet::<T>(),
    {
        let r = Reorder { pending: HashMap::new(), next_idx: 0 };
        assert(r@.pending =~= Map::empty());
        r
    }

    /// Takes in an item and hands out those whose turn it is.
    pub fn accept(&mut self, index: u64, item: T) -> (out: Vec<T>)
        requires
            index < u64::MAX,
            !old(self)@.pending.contains_key(u64::MAX),
        ensures
            takes_in(old(self)@, index, item, final(self)@, out@),
            !final(self)@.pending.contains_key(u64::MAX),
    {
        let ghost first = self.next_idx;
        self.pending.insert(index, item);
        let ghost all = self.pending@;
        let mut out: Vec<T> = Vec::new();
        loop
            invariant
                first <= self.next_idx,
                !all.contains_key(u64::MAX),
                out@.len() == self.next_idx - first,
                forall|k: u64|
                    first <= k < self.next_idx ==> #[trigger] all.contains_key(k) && out@[k - first]
                        == all[k],
                forall|k: u64| #[trigger]
                    self.pending@.contains_key(k) <==> all.contains_key(k) && !(first <= k
                        < self.next_idx),
                forall|k: u64| #[trigger]
                    self.pending@.contains_key(k) ==> self.pending@[k] == all[k],
            ensures
                !all.contains_key(self.next_idx),
            decreases u64::MAX - self.next_idx,
        {
            let next: u64 = self.next_idx;
            match self.pending.remove(&next) {
                None => {
                    break;
                },
                Some(x) => {
                    out.push(x);
                    self.next_idx = next + 1;
                },
            }
        }
        out
    }
}

/// The items of a list of lists.
pub open spec fn flat<T>(outs: Seq<Seq<T>>) -> Seq<T>
    decreases outs.len(),
{
    if outs.len() == 0 {
        Seq::empty()
    } else {
        flat(outs.drop_last()) + outs.last()
    }
}

/// Arrivals one after the other: the states between them, and what was handed
/// out at each.
pub open spec fn is_trace<T>(
    arrivals: Seq<(u64, T)>,
    states: Seq<Waiting<T>>,
    outs: Seq<Seq<T>>,
) -> bool {
    &&& states.len() == arrivals.len() + 1
    &&& outs.len() == arrivals.len()
    &&& states[0] == nothing_yet::<T>()
    &&& forall|k: int|
        0 <= k < arrivals.len() ==> #[trigger] takes_in(
            states[k],
            arrivals[k].0,
            arrivals[k].1,
            states[k + 1],
            outs[k],
        )
}

/// Whether the item with number `k` is among the first `n` arrivals.
pub open spec fn arrived<T>(arrivals: Seq<(u64, T)>, n: int, k: int) -> bool {
    exists|i: int| 0 <= i < n && (#[trigger] arrivals[i]).0 == k
}

/// Whether the numbers of the arrivals are those from zero on, each once.
pub open spec fn numbered<T>(arrivals: Seq<(u64, T)>) -> bool {
    &&& forall|i: int, j: int|
        0 <= i < j < arrivals.len() ==> (#[trigger] arrivals[i]).0 != (#[trigger] arrivals[j]).0
    &&& forall|i: int| 0 <= i < arrivals.len() ==> (#[trigger] arrivals[i]).0 < arrivals.len()
    &&& forall|k: int|
        0 <= k < arrivals.len() ==> #[trigger] arrived(arrivals, arrivals.len() as int, k)
}

/// What holds after the first `n` arrivals: what was handed out are the items
/// below the number waited for, in order, and the rest is waiting.
spec fn in_step<T>(arrivals: Seq<(u64, T)>, n: int, w: Waiting<T>, out: Seq<T>) -> bool {
    &&& out.len() == w.next
    &&& forall|i: int|
        0 <= i < n ==> (#[trigger] arrivals[i]).0 < w.next && out[arrivals[i].0 as int]
            == arrivals[i].1 || (arrivals[i].0 >= w.next && w.pending.contains_key(arrivals[i].0)
            && w.pending[arrivals[i].0] == arrivals[i].1)
    &&& forall|k: u64| #[trigger]
        w.pending.contains_key(k) ==> k >= w.next && arrived(arrivals, n, k as int)
    &&& forall|k: int| 0 <= k < w.next ==> #[trigger] arrived(arrivals, n, k)
    &&& !w.pending.contains_key(w.next)
}

proof fn lemma_step<T>(
    arrivals: Seq<(u64, T)>,
    n: int,
    w: Waiting<T>,
    out: Seq<T>,
    w2: Waiting<T>,
    more: Seq<T>,
)
    requires
        numbered(arrivals),
        0 <= n < arrivals.len(),
        in_step(arrivals, n, w, out),
        takes_in(w, arrivals[n].0, arrivals[n].1, w2, more),
    ensures
        in_step(arrivals, n + 1, w2, out + more),
{
    let (index, item) = arrivals[n];
    let all = w.pending.insert(index, item);
    assert(index >= w.next) by {
        if index < w.next {
            assert(arrived(arrivals, n, index as int));
            let i = choose|i: int| 0 <= i < n && (#[trigger] arrivals[i]).0 == index;
            assert(arrivals[i].0 != arrivals[n].0);
        }
    }
    assert forall|i: int| 0 <= i < n + 1 implies (#[trigger] arrivals[i]).0 < w2.next && (out
        + more)[arrivals[i].0 as int] == arrivals[i].1 || (arrivals[i].0 >= w2.next
        && w2.pending.contains_key(arrivals[i].0) && w2.pending[arrivals[i].0]
        == arrivals[i].1) by {
        let k = arrivals[i].0;
        if i < n {
            assert(k != index);
        }
        if k >= w.next {
            assert(all.contains_key(k) && all[k] == arrivals[i].1);
            if k < w2.next {
                assert(more[k - w.next] == all[k]);
            } else {
                assert(w2.pending.contains_key(k));
            }
        }
    }
    assert forall|k: u64| #[trigger] all.contains_key(k) implies arrived(
        arrivals,
        n + 1,
        k as int,
    ) by {
        if k == index {
            assert(arrivals[n].0 == k);
        } else {
            let i = choose|i: int| 0 <= i < n && (#[trigger] arrivals[i]).0 == k;
            assert(0 <= i < n + 1 && arrivals[i].0 == k);
        }
    }
    assert forall|k: int| 0 <= k < w2.next implies #[trigger] arrived(arrivals, n + 1, k) by {
        if k < w.next {
            assert(arrived(arrivals, n, k));
            let i = choose|i: int| 0 <= i < n && (#[trigger] arrivals[i]).0 == k;
            assert(0 <= i < n + 1 && arrivals[i].0 == k);
        } else {
            assert(all.contains_key(k as u64));
        }
    }
}

proof fn lemma_steps<T>(
    arrivals: Seq<(u64, T)>,
    states: Seq<Waiting<T>>,
    outs: Seq<Seq<T>>,
    n: int,
)
    requires
        is_trace(arrivals, states, outs),
        numbered(arrivals),
        0 <= n <= arrivals.len(),
    ensures
        in_step(arrivals, n, states[n], flat(outs.take(n))),
    decreases n,
{
    if n > 0 {
        lemma_steps(arrivals, states, outs, n - 1);
        assert(outs.take(n).drop_last() =~= outs.take(n - 1));
        assert(takes_in(
            states[n - 1],
            arrivals[n - 1].0,
            arrivals[n - 1].1,
            states[n - 1 + 1],
            outs[n - 1],
        ));
        lemma_step(
            arrivals,
            n - 1,
            states[n - 1],
            flat(outs.take(n - 1)),
            states[n],
            outs[n - 1],
        );
    }
}

/// However items numbered from zero on arrive, they are handed out in the
/// order of their numbers, every one of them once, and none is left waiting.
pub proof fn law_items_leave_in_order<T>(
    arrivals: Seq<(u64, T)>,
    states: Seq<Waiting<T>>,
    outs: Seq<Seq<T>>,
)
    requires
        is_trace(arrivals, states, outs),
        numbered(arrivals),
    ensures
        flat(outs).len() == arrivals.len(),
        forall|i: int|
            0 <= i < arrivals.len() ==> flat(outs)[(#[trigger] arrivals[i]).0 as int]
                == arrivals[i].1,
        forall|k: u64| !states.last().pending.contains_key(k),
{
    let n = arrivals.len() as int;
    lemma_steps(arrivals, states, outs, n);
    assert(outs.take(n) =~= outs);
    let w = states.last();
    if w.next < n {
        assert(arrived(arrivals, n, w.next as int));
        let i = choose|i: int| 0 <= i < n && (#[trigger] arrivals[i]).0 == w.next;
        assert(w.pending.contains_key(arrivals[i].0));
    }
    if w.next > n {
        assert(arrived(arrivals, n, n));
        let i = choose|i: int| 0 <= i < n && (#[trigger] arrivals[i]).0 == n;
    }
    assert forall|k: u64| !w.pending.contains_key(k) by {
        if w.pending.contains_key(k) {
            assert(arrived(arrivals, n, k as int));
            let i = choose|i: int| 0 <= i < n && (#[trigger] arrivals[i]).0 == k;
        }
    }
}

/// The order of arrival makes no difference to the order in which items are
/// handed out.
pub proof fn law_arrival_order_is_immaterial<T>(
    arrivals1: Seq<(u64, T)>,
    states1: Seq<Waiting<T>>,
    outs1: Seq<Seq<T>>,
    arrivals2: Seq<(u64, T)>,
    states2: Seq<Waiting<T>>,
    outs2: Seq<Seq<T>>,
)
    requires
        is_trace(arrivals1, states1, outs1),
        is_trace(arrivals2, states2, outs2),
        numbered(arrivals1),
        numbered(arrivals2),
        arrivals1.len() == arrivals2.len(),
        forall|x: (u64, T)| arrivals1.contains(x) <==> arrivals2.contains(x),
    ensures
        flat(outs1) == flat(outs2),
{
    law_items_leave_in_order(arrivals1, states1, outs1);
    law_items_leave_in_order(arrivals2, states2, outs2);
    let n = arrivals1.len() as int;
    assert forall|k: int| 0 <= k < n implies flat(outs1)[k] == flat(outs2)[k] by {
        assert(arrived(arrivals1, n, k));
        let i = choose|i: int| 0 <= i < n && (#[trigger] arrivals1[i]).0 == k;
        assert(arrivals1.contains(arrivals1[i]));
        let j = choose|j: int| 0 <= j < n && arrivals2[j] == arrivals1[i];
        assert(flat(outs1)[arrivals1[i].0 as int] == arrivals1[i].1);
        assert(flat(outs2)[arrivals2[j].0 as int] == arrivals2[j].1);
    }
    assert(flat(outs1) =~= flat(outs2));
}

/// Taking in one item, spelled out: what leaves are the items from the next
/// number on, without a gap, up to the first one that is missing; what stays
/// is everything else that was waiting or has come in.
pub proof fn law_taking_in_one_item<T>(
    before: Waiting<T>,
    index: u64,
    item: T,
    after: Waiting<T>,
    out: Seq<T>,
)
    requires
        takes_in(before, index, item, after, out),
    ensures
        after.next == before.next + out.len(),
        index != after.next && !before.pending.contains_key(after.next),
        forall|i: int|
            0 <= i < out.len() && before.next + i == index ==> #[trigger] out[i] == item,
        forall|k: u64|
            before.next <= k < after.next && k != index ==> #[trigger] before.pending.contains_key(k)
                && out[k - before.next] == before.pending[k],
        forall|k: u64| #[trigger]
            after.pending.contains_key(k) <==> (k == index || before.pending.contains_key(k)) && !(
            before.next <= k < after.next),
        forall|k: u64| #[trigger]
            after.pending.contains_key(k) ==> after.pending[k] == (if k == index {
                item
            } else {
                before.pending[k]
            }),
{
    let all = before.pending.insert(index, item);
    assert forall|i: int| 0 <= i < out.len() && before.next + i == index implies #[trigger] out[i]
        == item by {
        assert(all.contains_key(index));
    }
    assert forall|k: u64| before.next <= k < after.next && k != index implies
        #[trigger] before.pending.contains_key(k) && out[k - before.next] == before.pending[k] by {
        assert(all.contains_key(k));
    }
}

/// Nothing waits at the start, and the first number is zero.
pub proof fn law_nothing_waits_at_first<T>(k: u64)
    ensures
        nothing_yet::<T>().next == 0,
        !nothing_yet::<T>().pending.contains_key(k),
{
}

/// What has left, one run behind the other.
pub proof fn law_runs_follow<T>(outs: Seq<Seq<T>>, run: Seq<T>)
    ensures
        flat(Seq::<Seq<T>>::empty()).len() == 0,
        flat(outs.push(run)) == flat(outs) + run,
{
    assert(outs.push(run).drop_last() =~= outs);
}

} // verus!

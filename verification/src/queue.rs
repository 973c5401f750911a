//! The queue store: named FIFO queues of opaque string payloads.
//!
//! A queue is created lazily on first touch; at the model level an
//! untouched queue and an empty one hold the same nothing, so the model
//! is one total function from queue name to queued payloads, oldest
//! first. Payloads enter at the tail and leave at the head.

use vstd::prelude::*;
use std::collections::VecDeque;
use crate::util::str_eq;

verus! {

struct NamedQueue {
    name: String,
    items: VecDeque<String>,
}

/// All the broker's queues, keyed by name.
pub struct QState {
    queues: Vec<NamedQueue>,
}

spec fn find_index(qs: Seq<NamedQueue>, name: Seq<char>) -> int
    decreases qs.len(),
{
    if qs.len() == 0 {
        -1
    } else if qs[0].name@ == name {
        0
    } else {
        let r = find_index(qs.drop_first(), name);
        if r == -1 {
            -1
        } else {
            r + 1
        }
    }
}

proof fn lemma_find_index(qs: Seq<NamedQueue>, name: Seq<char>)
    ensures
        find_index(qs, name) == -1 ==> forall|i: int|
            0 <= i < qs.len() ==> qs[i].name@ != name,
        find_index(qs, name) != -1 ==> 0 <= find_index(qs, name) < qs.len() && qs[find_index(
            qs,
            name,
        )].name@ == name && forall|j: int| 0 <= j < find_index(qs, name) ==> qs[j].name@ != name,
    decreases qs.len(),
{
    if qs.len() == 0 {
    } else if qs[0].name@ == name {
    } else {
        let d = qs.drop_first();
        lemma_find_index(d, name);
        if find_index(qs, name) == -1 {
            assert forall|i: int| 0 <= i < qs.len() implies qs[i].name@ != name by {
                if i > 0 {
                    assert(qs[i] == d[i - 1]);
                }
            }
        } else {
            let r = find_index(d, name);
            assert(qs[find_index(qs, name)] == d[r]);
            assert forall|j: int| 0 <= j < find_index(qs, name) implies qs[j].name@ != name by {
                if j > 0 {
                    assert(qs[j] == d[j - 1]);
                }
            }
        }
    }
}

proof fn lemma_find_index_update(qs: Seq<NamedQueue>, i: int, e: NamedQueue, name: Seq<char>)
    requires
        0 <= i < qs.len(),
        e.name@ == qs[i].name@,
    ensures
        find_index(qs.update(i, e), name) == find_index(qs, name),
    decreases qs.len(),
{
    if i == 0 {
        assert(qs.update(0, e)[0] == e);
        assert(qs.update(0, e).drop_first() =~= qs.drop_first());
    } else {
        assert(qs.update(i, e)[0] == qs[0]);
        assert(qs.update(i, e).drop_first() =~= qs.drop_first().update(i - 1, e));
        lemma_find_index_update(qs.drop_first(), i - 1, e, name);
    }
}

proof fn lemma_find_index_push(qs: Seq<NamedQueue>, e: NamedQueue, name: Seq<char>)
    ensures
        find_index(qs, name) != -1 ==> find_index(qs.push(e), name) == find_index(qs, name),
        find_index(qs, name) == -1 && e.name@ == name ==> find_index(qs.push(e), name)
            == qs.len() as int,
        find_index(qs, name) == -1 && e.name@ != name ==> find_index(qs.push(e), name) == -1,
    decreases qs.len(),
{
    if qs.len() == 0 {
        assert(qs.push(e).len() == 1);
        assert(qs.push(e)[0] == e);
        assert(qs.push(e).drop_first() =~= Seq::<NamedQueue>::empty());
        if e.name@ == name {
            assert(find_index(qs.push(e), name) == 0);
        } else {
            assert(find_index(qs.push(e).drop_first(), name) == -1);
            assert(find_index(qs.push(e), name) == -1);
        }
        assert(find_index(qs, name) == -1);
    } else {
        assert(qs.push(e)[0] == qs[0]);
        assert(qs.push(e).drop_first() =~= qs.drop_first().push(e));
        lemma_find_index_push(qs.drop_first(), e, name);
        lemma_find_index(qs.drop_first(), name);
        if qs[0].name@ == name {
            assert(find_index(qs.push(e), name) == 0);
            assert(find_index(qs, name) == 0);
        } else {
            let fi_d = find_index(qs.drop_first(), name);
            let r = find_index(qs.drop_first().push(e), name);
            assert(find_index(qs.push(e).drop_first(), name) == r);
            assert(find_index(qs.push(e), name) == if r == -1 {
                -1
            } else {
                r + 1
            });
            assert(find_index(qs, name) == if fi_d == -1 {
                -1
            } else {
                fi_d + 1
            });
            assert(qs.drop_first().len() as int + 1 == qs.len() as int);
        }
    }
}

impl QState {
    /// The payloads queued under `name`, oldest first.
    pub closed spec fn contents(self, name: Seq<char>) -> Seq<String> {
        let i = find_index(self.queues@, name);
        if i == -1 {
            Seq::empty()
        } else {
            self.queues@[i].items@
        }
    }

    /// Well-formed: queue names are unique.
    pub closed spec fn wf(self) -> bool {
        forall|i: int, j: int|
            0 <= i < j < self.queues@.len() ==> self.queues@[i].name@ != self.queues@[j].name@
    }

    /// A store with no queues: every name holds nothing.
    pub fn new() -> (r: Self)
        ensures
            r.wf(),
            forall|n: Seq<char>| #[trigger] r.contents(n) == Seq::<String>::empty(),
    {
        QState { queues: Vec::new() }
    }

    fn find(&self, q_name: &str) -> (r: Option<usize>)
        ensures
            ({
                let fi = find_index(self.queues@, q_name@);
                match r {
                    Some(i) => fi == i as int && i < self.queues@.len(),
                    None => fi == -1,
                }
            }),
    {
        let mut i: usize = 0;
        while i < self.queues.len()
            invariant
                i <= self.queues@.len(),
                forall|j: int| 0 <= j < i ==> self.queues@[j].name@ != q_name@,
            decreases self.queues@.len() - i,
        {
            if str_eq(self.queues[i].name.as_str(), q_name) {
                proof {
                    lemma_find_index(self.queues@, q_name@);
                }
                return Some(i);
            }
            i += 1;
        }
        proof {
            lemma_find_index(self.queues@, q_name@);
        }
        None
    }

    /// Make sure the named queue exists. First touch creates it; the
    /// model does not move, because an untouched queue and an empty one
    /// hold the same nothing.
    pub fn create(&mut self, q_name: String)
        requires
            old(self).wf(),
        ensures
            final(self).wf(),
            forall|n: Seq<char>| #[trigger] final(self).contents(n) == old(self).contents(n),
    {
        let ghost qs0 = self.queues@;
        match self.find(q_name.as_str()) {
            Some(_) => {},
            None => {
                self.queues.push(NamedQueue { name: q_name, items: VecDeque::new() });
                proof {
                    assert forall|n: Seq<char>| #[trigger]
                        final(self).contents(n) == old(self).contents(n) by {
                        lemma_find_index_push(qs0, self.queues@.last(), n);
                        lemma_find_index(qs0, n);
                    }
                    assert forall|i: int, j: int|
                        0 <= i < j < self.queues@.len() implies self.queues@[i].name@
                        != self.queues@[j].name@ by {
                        lemma_find_index(qs0, self.queues@[j].name@);
                    }
                }
            },
        }
    }

    /// Append a payload at the tail of the named queue, creating the
    /// queue on first touch.
    pub fn push(&mut self, q_name: String, payload: String)
        requires
            old(self).wf(),
        ensures
            final(self).wf(),
            final(self).contents(q_name@) == old(self).contents(q_name@).push(payload),
            forall|n: Seq<char>| n != q_name@ ==> #[trigger] final(self).contents(n) == old(self).contents(n),
    {
        let ghost qs0 = self.queues@;
        match self.find(q_name.as_str()) {
            Some(i) => {
                let mut entry = self.queues.remove(i);
                entry.items.push_back(payload);
                self.queues.insert(i, entry);
                proof {
                    let e = self.queues@[i as int];
                    assert(self.queues@ =~= qs0.update(i as int, e));
                    lemma_find_index(qs0, q_name@);
                    assert forall|n: Seq<char>| n != q_name@ implies #[trigger] final(self).contents(n) == old(self).contents(n) by {
                        lemma_find_index_update(qs0, i as int, e, n);
                        lemma_find_index(qs0, n);
                    }
                    lemma_find_index_update(qs0, i as int, e, q_name@);
                    assert forall|k: int, j: int|
                        0 <= k < j < self.queues@.len() implies self.queues@[k].name@
                        != self.queues@[j].name@ by {
                        assert(qs0[k].name@ != qs0[j].name@);
                    }
                }
            },
            None => {
                let mut items: VecDeque<String> = VecDeque::new();
                items.push_back(payload);
                self.queues.push(NamedQueue { name: q_name, items });
                proof {
                    let e = self.queues@.last();
                    assert forall|n: Seq<char>| n != e.name@ implies #[trigger] final(self).contents(n) == old(self).contents(n) by {
                        lemma_find_index_push(qs0, e, n);
                        lemma_find_index(qs0, n);
                    }
                    lemma_find_index_push(qs0, e, e.name@);
                    assert(final(self).contents(e.name@) =~= old(self).contents(e.name@).push(
                        payload,
                    ));
                    assert forall|k: int, j: int|
                        0 <= k < j < self.queues@.len() implies self.queues@[k].name@
                        != self.queues@[j].name@ by {
                        lemma_find_index(qs0, e.name@);
                    }
                }
            },
        }
    }

    /// Remove and return the oldest payload of the named queue. An empty
    /// or untouched queue yields nothing: the normal answer to a poll
    /// that ran ahead of the data.
    pub fn pop(&mut self, q_name: &str) -> (r: Option<String>)
        requires
            old(self).wf(),
        ensures
            final(self).wf(),
            old(self).contents(q_name@).len() == 0 ==> r is None,
            old(self).contents(q_name@).len() > 0 ==> r == Some(
                old(self).contents(q_name@)[0],
            ) && final(self).contents(q_name@) == old(self).contents(q_name@).drop_first(),
            forall|n: Seq<char>| n != q_name@ ==> #[trigger] final(self).contents(n) == old(self).contents(n),
            old(self).contents(q_name@).len() == 0 ==> final(self).contents(q_name@) == old(self).contents(q_name@),
    {
        let ghost qs0 = self.queues@;
        match self.find(q_name) {
            Some(i) => {
                let mut entry = self.queues.remove(i);
                let r = entry.items.pop_front();
                self.queues.insert(i, entry);
                proof {
                    let e = self.queues@[i as int];
                    assert(self.queues@ =~= qs0.update(i as int, e));
                    lemma_find_index(qs0, q_name@);
                    assert forall|n: Seq<char>| n != q_name@ implies #[trigger] final(self).contents(n) == old(self).contents(n) by {
                        lemma_find_index_update(qs0, i as int, e, n);
                        lemma_find_index(qs0, n);
                    }
                    lemma_find_index_update(qs0, i as int, e, q_name@);
                    if qs0[i as int].items@.len() > 0 {
                        assert(final(self).contents(q_name@) =~= old(self).contents(
                            q_name@,
                        ).drop_first());
                    }
                    assert forall|k: int, j: int|
                        0 <= k < j < self.queues@.len() implies self.queues@[k].name@
                        != self.queues@[j].name@ by {
                        assert(qs0[k].name@ != qs0[j].name@);
                    }
                }
                r
            },
            None => None,
        }
    }
}

/// FIFO order per queue: two payloads pushed to one empty queue with no
/// pop between come back in push order. After the two pushes the store's
/// model holds exactly the two payloads, so the first pop — which by
/// `pop`'s contract takes the head and leaves the rest — yields the
/// first payload, the second pop yields the second, and the queue is
/// empty again.
pub proof fn lemma_fifo_order(s0: QState, s1: QState, s2: QState, n: Seq<char>, p1: String, p2: String)
    requires
        s0.contents(n).len() == 0,
        s1.contents(n) == s0.contents(n).push(p1),
        s2.contents(n) == s1.contents(n).push(p2),
    ensures
        s2.contents(n)[0] == p1,
        s2.contents(n).drop_first()[0] == p2,
        s2.contents(n).drop_first().drop_first().len() == 0,
{
    assert(s2.contents(n) =~= seq![p1, p2]);
}

} // verus!

//! Competing consumers: who is registered on each queue name, and the
//! round-robin rotation that keeps one consumer from monopolizing a
//! queue its peers also poll. Each successful pop rotates the turn to
//! the next registered consumer; a consumer polling out of turn, or a
//! queue with nothing in it, is answered with silence.

use vstd::prelude::*;
use crate::queue::QState;
use crate::util::str_eq;

verus! {

struct Group {
    q_name: String,
    members: Vec<String>,
    cursor: usize,
}

/// The consumer registrations, grouped by queue name, each group with
/// its rotation cursor: the member whose turn the next pop is.
pub struct ConsumerRegistry {
    groups: Vec<Group>,
}

spec fn find_g(gs: Seq<Group>, name: Seq<char>) -> int
    decreases gs.len(),
{
    if gs.len() == 0 {
        -1
    } else if gs[0].q_name@ == name {
        0
    } else {
        let r = find_g(gs.drop_first(), name);
        if r == -1 {
            -1
        } else {
            r + 1
        }
    }
}

proof fn lemma_find_g(gs: Seq<Group>, name: Seq<char>)
    ensures
        find_g(gs, name) == -1 ==> forall|i: int| 0 <= i < gs.len() ==> gs[i].q_name@ != name,
        find_g(gs, name) != -1 ==> 0 <= find_g(gs, name) < gs.len() && gs[find_g(
            gs,
            name,
        )].q_name@ == name && forall|j: int| 0 <= j < find_g(gs, name) ==> gs[j].q_name@ != name,
    decreases gs.len(),
{
    if gs.len() == 0 {
    } else if gs[0].q_name@ == name {
    } else {
        let d = gs.drop_first();
        lemma_find_g(d, name);
        if find_g(gs, name) == -1 {
            assert forall|i: int| 0 <= i < gs.len() implies gs[i].q_name@ != name by {
                if i > 0 {
                    assert(gs[i] == d[i - 1]);
                }
            }
        } else {
            let r = find_g(d, name);
            assert(gs[find_g(gs, name)] == d[r]);
            assert forall|j: int| 0 <= j < find_g(gs, name) implies gs[j].q_name@ != name by {
                if j > 0 {
                    assert(gs[j] == d[j - 1]);
                }
            }
        }
    }
}

proof fn lemma_find_g_update(gs: Seq<Group>, i: int, e: Group, name: Seq<char>)
    requires
        0 <= i < gs.len(),
        e.q_name@ == gs[i].q_name@,
    ensures
        find_g(gs.update(i, e), name) == find_g(gs, name),
    decreases gs.len(),
{
    if i == 0 {
        assert(gs.update(0, e)[0] == e);
        assert(gs.update(0, e).drop_first() =~= gs.drop_first());
    } else {
        assert(gs.update(i, e)[0] == gs[0]);
        assert(gs.update(i, e).drop_first() =~= gs.drop_first().update(i - 1, e));
        lemma_find_g_update(gs.drop_first(), i - 1, e, name);
    }
}

proof fn lemma_find_g_push(gs: Seq<Group>, e: Group, name: Seq<char>)
    ensures
        find_g(gs, name) != -1 ==> find_g(gs.push(e), name) == find_g(gs, name),
        find_g(gs, name) == -1 && e.q_name@ == name ==> find_g(gs.push(e), name) == gs.len() as int,
        find_g(gs, name) == -1 && e.q_name@ != name ==> find_g(gs.push(e), name) == -1,
    decreases gs.len(),
{
    if gs.len() == 0 {
        assert(gs.push(e).len() == 1);
        assert(gs.push(e)[0] == e);
        assert(gs.push(e).drop_first() =~= Seq::<Group>::empty());
        if e.q_name@ == name {
            assert(find_g(gs.push(e), name) == 0);
        } else {
            assert(find_g(gs.push(e).drop_first(), name) == -1);
            assert(find_g(gs.push(e), name) == -1);
        }
        assert(find_g(gs, name) == -1);
    } else {
        assert(gs.push(e)[0] == gs[0]);
        assert(gs.push(e).drop_first() =~= gs.drop_first().push(e));
        lemma_find_g_push(gs.drop_first(), e, name);
        lemma_find_g(gs.drop_first(), name);
        if gs[0].q_name@ == name {
            assert(find_g(gs.push(e), name) == 0);
            assert(find_g(gs, name) == 0);
        } else {
            let fi_d = find_g(gs.drop_first(), name);
            let r = find_g(gs.drop_first().push(e), name);
            assert(find_g(gs.push(e).drop_first(), name) == r);
            assert(find_g(gs.push(e), name) == if r == -1 {
                -1
            } else {
                r + 1
            });
            assert(find_g(gs, name) == if fi_d == -1 {
                -1
            } else {
                fi_d + 1
            });
            assert(gs.drop_first().len() as int + 1 == gs.len() as int);
        }
    }
}

/// One poll attempt against a queue's fairness group, as a function of
/// the group's members, its cursor, the queue's contents, and the
/// poller's identity: whether the poll is served, and the cursor and
/// queue contents that remain. A poll is served exactly when it is this
/// consumer's turn and data is available; serving rotates the turn.
pub open spec fn spec_serve(
    members: Seq<Seq<char>>,
    cursor: int,
    queue: Seq<String>,
    ident: Seq<char>,
) -> (bool, int, Seq<String>) {
    if 0 <= cursor < members.len() && members[cursor] == ident && queue.len() > 0 {
        (
            true,
            if cursor + 1 == members.len() {
                0
            } else {
                cursor + 1
            },
            queue.drop_first(),
        )
    } else {
        (false, cursor, queue)
    }
}

impl ConsumerRegistry {
    /// The identities registered on the named queue, in registration
    /// order.
    pub closed spec fn members_of(self, q: Seq<char>) -> Seq<Seq<char>> {
        let i = find_g(self.groups@, q);
        if i == -1 {
            Seq::empty()
        } else {
            self.groups@[i].members@.map_values(|m: String| m@)
        }
    }

    /// The rotation cursor of the named queue's group: which member's
    /// turn the next pop is.
    pub closed spec fn cursor_of(self, q: Seq<char>) -> int {
        let i = find_g(self.groups@, q);
        if i == -1 {
            0
        } else {
            self.groups@[i].cursor as int
        }
    }

    /// Well-formed: queue names are unique, every group has a member,
    /// and every cursor points at a member.
    pub closed spec fn wf(self) -> bool {
        &&& forall|i: int, j: int|
            0 <= i < j < self.groups@.len() ==> self.groups@[i].q_name@ != self.groups@[j].q_name@
        &&& forall|i: int|
            0 <= i < self.groups@.len() ==> 0 < (#[trigger] self.groups@[i]).members@.len()
                && self.groups@[i].cursor < self.groups@[i].members@.len()
    }

    /// A registry with nobody registered.
    pub fn new() -> (r: Self)
        ensures
            r.wf(),
            forall|q: Seq<char>| #[trigger] r.members_of(q) == Seq::<Seq<char>>::empty(),
            forall|q: Seq<char>| #[trigger] r.cursor_of(q) == 0,
    {
        ConsumerRegistry { groups: Vec::new() }
    }

    fn find(&self, q_name: &str) -> (r: Option<usize>)
        ensures
            ({
                let fi = find_g(self.groups@, q_name@);
                match r {
                    Some(i) => fi == i as int && i < self.groups@.len(),
                    None => fi == -1,
                }
            }),
    {
        let mut i: usize = 0;
        while i < self.groups.len()
            invariant
                i <= self.groups@.len(),
                forall|j: int| 0 <= j < i ==> self.groups@[j].q_name@ != q_name@,
            decreases self.groups@.len() - i,
        {
            if str_eq(self.groups[i].q_name.as_str(), q_name) {
                proof {
                    lemma_find_g(self.groups@, q_name@);
                }
                return Some(i);
            }
            i += 1;
        }
        proof {
            lemma_find_g(self.groups@, q_name@);
        }
        None
    }

    /// Register a consumer identity on a queue name. The first
    /// registration starts the queue's fairness group; registering an
    /// identity that is already in the group changes nothing.
    pub fn register(&mut self, identifier: String, q_name: String)
        requires
            old(self).wf(),
        ensures
            final(self).wf(),
            old(self).members_of(q_name@).contains(identifier@) ==> final(self).members_of(
                q_name@,
            ) == old(self).members_of(q_name@),
            !old(self).members_of(q_name@).contains(identifier@) ==> final(self).members_of(
                q_name@,
            ) == old(self).members_of(q_name@).push(identifier@),
            final(self).cursor_of(q_name@) == old(self).cursor_of(q_name@),
            forall|q: Seq<char>|
                q != q_name@ ==> #[trigger] final(self).members_of(q) == old(self).members_of(q),
            forall|q: Seq<char>|
                q != q_name@ ==> #[trigger] final(self).cursor_of(q) == old(self).cursor_of(q),
    {
        let ghost gs0 = self.groups@;
        match self.find(q_name.as_str()) {
            None => {
                let mut members: Vec<String> = Vec::new();
                members.push(identifier);
                self.groups.push(Group { q_name, members, cursor: 0 });
                proof {
                    let e = self.groups@.last();
                    lemma_find_g_push(gs0, e, e.q_name@);
                    assert(final(self).members_of(e.q_name@) =~= old(self).members_of(
                        e.q_name@,
                    ).push(e.members@[0]@));
                    assert forall|q: Seq<char>| q != e.q_name@ implies #[trigger] final(self).members_of(q) == old(self).members_of(q) by {
                        lemma_find_g_push(gs0, e, q);
                        lemma_find_g(gs0, q);
                    }
                    assert forall|q: Seq<char>| q != e.q_name@ implies #[trigger] final(self).cursor_of(q) == old(self).cursor_of(q) by {
                        lemma_find_g_push(gs0, e, q);
                        lemma_find_g(gs0, q);
                    }
                    assert forall|k: int, j: int|
                        0 <= k < j < self.groups@.len() implies self.groups@[k].q_name@
                        != self.groups@[j].q_name@ by {
                        lemma_find_g(gs0, e.q_name@);
                    }
                }
            },
            Some(i) => {
                proof {
                    lemma_find_g(gs0, q_name@);
                }
                let present = {
                    let g = &self.groups[i];
                    let mut t: usize = 0;
                    let mut found = false;
                    while t < g.members.len()
                        invariant
                            t <= g.members@.len(),
                            found == exists|w: int|
                                0 <= w < t && (#[trigger] g.members@[w])@ == identifier@,
                        decreases g.members@.len() - t,
                    {
                        if str_eq(g.members[t].as_str(), identifier.as_str()) {
                            found = true;
                        }
                        t += 1;
                    }
                    found
                };
                proof {
                    let ms = gs0[i as int].members@.map_values(|m: String| m@);
                    assert(present == ms.contains(identifier@)) by {
                        if present {
                            let w = choose|w: int|
                                0 <= w < gs0[i as int].members@.len() && (
                                gs0[i as int].members@[w])@ == identifier@;
                            assert(ms[w] == identifier@);
                        } else {
                            if ms.contains(identifier@) {
                                let w = choose|w: int| 0 <= w < ms.len() && ms[w] == identifier@;
                                assert((gs0[i as int].members@[w])@ == identifier@);
                            }
                        }
                    }
                }
                if !present {
                    let mut g = self.groups.remove(i);
                    g.members.push(identifier);
                    self.groups.insert(i, g);
                    proof {
                        let e = self.groups@[i as int];
                        assert(self.groups@ =~= gs0.update(i as int, e));
                        lemma_find_g_update(gs0, i as int, e, q_name@);
                        assert(final(self).members_of(q_name@) =~= old(self).members_of(
                            q_name@,
                        ).push(e.members@.last()@));
                        assert forall|q: Seq<char>| q != q_name@ implies #[trigger] final(self).members_of(q) == old(self).members_of(q) by {
                            lemma_find_g_update(gs0, i as int, e, q);
                            lemma_find_g(gs0, q);
                        }
                        assert forall|q: Seq<char>| q != q_name@ implies #[trigger] final(self).cursor_of(q) == old(self).cursor_of(q) by {
                            lemma_find_g_update(gs0, i as int, e, q);
                            lemma_find_g(gs0, q);
                        }
                        assert forall|k: int, j: int|
                            0 <= k < j < self.groups@.len() implies self.groups@[k].q_name@
                            != self.groups@[j].q_name@ by {
                            assert(gs0[k].q_name@ != gs0[j].q_name@);
                        }
                    }
                }
            },
        }
    }

    /// Serve one poll from the identified consumer against the named
    /// queue: if it is this consumer's turn on the queue's rotation and
    /// data is there, pop the head and rotate the turn to the next
    /// registered consumer; in every other case serve nothing and move
    /// nothing.
    pub fn serve(&mut self, identifier: &String, q_name: &String, store: &mut QState) -> (r:
        Option<String>)
        requires
            old(self).wf(),
            old(store).wf(),
        ensures
            final(self).wf(),
            final(store).wf(),
            ({
                let t = spec_serve(
                    old(self).members_of(q_name@),
                    old(self).cursor_of(q_name@),
                    old(store).contents(q_name@),
                    identifier@,
                );
                &&& t.0 ==> r == Some(old(store).contents(q_name@)[0])
                &&& !t.0 ==> r is None
                &&& final(self).cursor_of(q_name@) == t.1
                &&& final(store).contents(q_name@) == t.2
                &&& final(self).members_of(q_name@) == old(self).members_of(q_name@)
            }),
            forall|q: Seq<char>|
                q != q_name@ ==> #[trigger] final(self).members_of(q) == old(self).members_of(q),
            forall|q: Seq<char>|
                q != q_name@ ==> #[trigger] final(self).cursor_of(q) == old(self).cursor_of(q),
            forall|n: Seq<char>| n != q_name@ ==> #[trigger] final(store).contents(n) == old(store).contents(n),
    {
        let gi = match self.find(q_name.as_str()) {
            Some(i) => i,
            None => {
                return None;
            },
        };
        proof {
            lemma_find_g(self.groups@, q_name@);
        }
        let is_turn = {
            let g = &self.groups[gi];
            str_eq(g.members[g.cursor].as_str(), identifier.as_str())
        };
        proof {
            let gv = self.groups@[gi as int];
            let ms = gv.members@.map_values(|m: String| m@);
            assert(ms[gv.cursor as int] == (gv.members@[gv.cursor as int])@);
        }
        if !is_turn {
            return None;
        }
        let ghost gs0 = self.groups@;
        match store.pop(q_name.as_str()) {
            None => None,
            Some(data) => {
                proof {
                    assert(gs0[gi as int].cursor < gs0[gi as int].members@.len());
                }
                let mut g = self.groups.remove(gi);
                let m = g.members.len();
                g.cursor = if g.cursor + 1 == m {
                    0
                } else {
                    g.cursor + 1
                };
                self.groups.insert(gi, g);
                proof {
                    let e = self.groups@[gi as int];
                    assert(self.groups@ =~= gs0.update(gi as int, e));
                    lemma_find_g_update(gs0, gi as int, e, q_name@);
                    assert(final(self).members_of(q_name@) =~= old(self).members_of(q_name@));
                    assert forall|q: Seq<char>| q != q_name@ implies #[trigger] final(self).members_of(q) == old(self).members_of(q) by {
                        lemma_find_g_update(gs0, gi as int, e, q);
                        lemma_find_g(gs0, q);
                    }
                    assert forall|q: Seq<char>| q != q_name@ implies #[trigger] final(self).cursor_of(q) == old(self).cursor_of(q) by {
                        lemma_find_g_update(gs0, gi as int, e, q);
                        lemma_find_g(gs0, q);
                    }
                    assert forall|k: int, j: int|
                        0 <= k < j < self.groups@.len() implies self.groups@[k].q_name@
                        != self.groups@[j].q_name@ by {
                        assert(gs0[k].q_name@ != gs0[j].q_name@);
                    }
                }
                Some(data)
            },
        }
    }
}

/// Competing consumers are served fairly. With two distinct consumers
/// registered on one queue and at least two payloads queued, one round
/// of polling serves both: the first consumer is served the head, the
/// same consumer polling again out of turn is refused rather than
/// allowed to monopolize the queue, and the second consumer is served
/// the next payload.
pub proof fn lemma_competing_consumers(a: Seq<char>, b: Seq<char>, queue: Seq<String>)
    requires
        a != b,
        queue.len() >= 2,
    ensures
        ({
            let members = seq![a, b];
            let first = spec_serve(members, 0, queue, a);
            let again = spec_serve(members, first.1, first.2, a);
            let second = spec_serve(members, first.1, first.2, b);
            &&& first.0
            &&& !again.0
            &&& second.0
            &&& second.2 == queue.drop_first().drop_first()
        }),
{
    let members = seq![a, b];
    assert(members[0] == a && members[1] == b && members.len() == 2);
}

} // verus!

//! The exchange registry and router: declared exchanges, their modes and
//! bindings, and the routing of publishes into the queue store.

use vstd::prelude::*;
use crate::codec::{decode, spec_decode, ProtocolError};
use crate::frame::{RequestType, SendPayload};
use crate::producer::ExchangeOption;
use crate::queue::QState;
use crate::util::str_eq;

verus! {

/// Why a publish could not be routed.
#[derive(Debug, Clone, Copy, PartialEq, Eq, Structural)]
pub enum RouteError {
    /// The publish named an exchange nobody declared.
    UnknownExchange,
    /// No binding matched. The default routing policy drops such a
    /// publish silently, as an empty target set rather than an error, so
    /// this diagnostic is reserved for stricter policies.
    NoMatchingBinding,
}

/// An exchange was redeclared with a different mode than it was declared
/// with; the declaration is rejected and the registry stands.
#[derive(Debug, Clone, Copy, PartialEq, Eq, Structural)]
pub enum ConfigError {
    ModeMismatch,
}

/// One binding: the queue it delivers to and, for direct mode, the
/// routing key that selects it.
pub struct Binding {
    pub q_name: String,
    pub key: Option<String>,
}

/// The mathematical shape of a binding.
#[verifier::ext_equal]
pub struct BindingModel {
    pub q_name: Seq<char>,
    pub key: Option<Seq<char>>,
}

impl View for Binding {
    type V = BindingModel;

    open spec fn view(&self) -> BindingModel {
        BindingModel {
            q_name: self.q_name@,
            key: match self.key {
                Some(k) => Some(k@),
                None => None,
            },
        }
    }
}

struct ExchangeEntry {
    name: String,
    mode: ExchangeOption,
    bindings: Vec<Binding>,
}

/// The exchange registry: every declared exchange, its routing mode, and
/// its bindings in binding order.
pub struct Exchange {
    entries: Vec<ExchangeEntry>,
}

spec fn find_x(es: Seq<ExchangeEntry>, name: Seq<char>) -> int
    decreases es.len(),
{
    if es.len() == 0 {
        -1
    } else if es[0].name@ == name {
        0
    } else {
        let r = find_x(es.drop_first(), name);
        if r == -1 {
            -1
        } else {
            r + 1
        }
    }
}

proof fn lemma_find_x(es: Seq<ExchangeEntry>, name: Seq<char>)
    ensures
        find_x(es, name) == -1 ==> forall|i: int| 0 <= i < es.len() ==> es[i].name@ != name,
        find_x(es, name) != -1 ==> 0 <= find_x(es, name) < es.len() && es[find_x(
            es,
            name,
        )].name@ == name && forall|j: int| 0 <= j < find_x(es, name) ==> es[j].name@ != name,
    decreases es.len(),
{
    if es.len() == 0 {
    } else if es[0].name@ == name {
    } else {
        let d = es.drop_first();
        lemma_find_x(d, name);
        if find_x(es, name) == -1 {
            assert forall|i: int| 0 <= i < es.len() implies es[i].name@ != name by {
                if i > 0 {
                    assert(es[i] == d[i - 1]);
                }
            }
        } else {
            let r = find_x(d, name);
            assert(es[find_x(es, name)] == d[r]);
            assert forall|j: int| 0 <= j < find_x(es, name) implies es[j].name@ != name by {
                if j > 0 {
                    assert(es[j] == d[j - 1]);
                }
            }
        }
    }
}

proof fn lemma_find_x_update(es: Seq<ExchangeEntry>, i: int, e: ExchangeEntry, name: Seq<char>)
    requires
        0 <= i < es.len(),
        e.name@ == es[i].name@,
    ensures
        find_x(es.update(i, e), name) == find_x(es, name),
    decreases es.len(),
{
    if i == 0 {
        assert(es.update(0, e)[0] == e);
        assert(es.update(0, e).drop_first() =~= es.drop_first());
    } else {
        assert(es.update(i, e)[0] == es[0]);
        assert(es.update(i, e).drop_first() =~= es.drop_first().update(i - 1, e));
        lemma_find_x_update(es.drop_first(), i - 1, e, name);
    }
}

proof fn lemma_find_x_push(es: Seq<ExchangeEntry>, e: ExchangeEntry, name: Seq<char>)
    ensures
        find_x(es, name) != -1 ==> find_x(es.push(e), name) == find_x(es, name),
        find_x(es, name) == -1 && e.name@ == name ==> find_x(es.push(e), name) == es.len() as int,
        find_x(es, name) == -1 && e.name@ != name ==> find_x(es.push(e), name) == -1,
    decreases es.len(),
{
    if es.len() == 0 {
        assert(es.push(e).len() == 1);
        assert(es.push(e)[0] == e);
        assert(es.push(e).drop_first() =~= Seq::<ExchangeEntry>::empty());
        if e.name@ == name {
            assert(find_x(es.push(e), name) == 0);
        } else {
            assert(find_x(es.push(e).drop_first(), name) == -1);
            assert(find_x(es.push(e), name) == -1);
        }
        assert(find_x(es, name) == -1);
    } else {
        assert(es.push(e)[0] == es[0]);
        assert(es.push(e).drop_first() =~= es.drop_first().push(e));
        lemma_find_x_push(es.drop_first(), e, name);
        lemma_find_x(es.drop_first(), name);
        if es[0].name@ == name {
            assert(find_x(es.push(e), name) == 0);
            assert(find_x(es, name) == 0);
        } else {
            let fi_d = find_x(es.drop_first(), name);
            let r = find_x(es.drop_first().push(e), name);
            assert(find_x(es.push(e).drop_first(), name) == r);
            assert(find_x(es.push(e), name) == if r == -1 {
                -1
            } else {
                r + 1
            });
            assert(find_x(es, name) == if fi_d == -1 {
                -1
            } else {
                fi_d + 1
            });
            assert(es.drop_first().len() as int + 1 == es.len() as int);
        }
    }
}

/// The routing key a publish carries: its queue-name field, where an
/// empty field means the request has no usable key.
pub open spec fn payload_key(p: SendPayload) -> Option<Seq<char>> {
    if p.q_name@.len() == 0 {
        None
    } else {
        Some(p.q_name@)
    }
}

/// What one payload adds to the queue named `n`, given the target list of
/// its publish: one independent copy of `data` per occurrence of `n`.
pub open spec fn occurrences(qs: Seq<Seq<char>>, n: Seq<char>, data: String) -> Seq<String>
    decreases qs.len(),
{
    if qs.len() == 0 {
        Seq::empty()
    } else {
        let rest = occurrences(qs.drop_last(), n, data);
        if qs.last() == n {
            rest.push(data)
        } else {
            rest
        }
    }
}

/// The queues a direct publish with key `key` reaches among `bs`: the
/// queue of every binding whose key equals `key`, in binding order.
pub open spec fn direct_matches(bs: Seq<BindingModel>, key: Seq<char>) -> Seq<Seq<char>>
    decreases bs.len(),
{
    if bs.len() == 0 {
        Seq::empty()
    } else {
        let rest = direct_matches(bs.drop_last(), key);
        if bs.last().key == Some(key) {
            rest.push(bs.last().q_name)
        } else {
            rest
        }
    }
}

impl Exchange {
    /// The mode the named exchange was declared with, if it was.
    pub closed spec fn mode_of(self, x: Seq<char>) -> Option<ExchangeOption> {
        let i = find_x(self.entries@, x);
        if i == -1 {
            None
        } else {
            Some(self.entries@[i].mode)
        }
    }

    /// The named exchange's bindings, in binding order.
    pub closed spec fn bindings_of(self, x: Seq<char>) -> Seq<BindingModel> {
        let i = find_x(self.entries@, x);
        if i == -1 {
            Seq::empty()
        } else {
            self.entries@[i].bindings@.map_values(|b: Binding| b@)
        }
    }

    /// Well-formed: exchange names are unique.
    pub closed spec fn wf(self) -> bool {
        forall|i: int, j: int|
            0 <= i < j < self.entries@.len() ==> self.entries@[i].name@ != self.entries@[j].name@
    }

    /// Which queues a publish reaches: every bound queue for fanout; for
    /// direct, the queues of the bindings whose key equals the publish
    /// key. A publish without a usable key reaches nothing, which is an
    /// empty set, not an error; an unknown exchange is the one error.
    pub open spec fn spec_route(self, x: Seq<char>, key: Option<Seq<char>>) -> Result<
        Seq<Seq<char>>,
        RouteError,
    > {
        match self.mode_of(x) {
            None => Err(RouteError::UnknownExchange),
            Some(ExchangeOption::Fanout) => Ok(
                self.bindings_of(x).map_values(|b: BindingModel| b.q_name),
            ),
            Some(ExchangeOption::Direct) => match key {
                None => Ok(Seq::empty()),
                Some(k) => Ok(direct_matches(self.bindings_of(x), k)),
            },
        }
    }

    /// A registry with no exchanges.
    pub fn new() -> (r: Self)
        ensures
            r.wf(),
            forall|x: Seq<char>| #[trigger] r.mode_of(x) is None,
            forall|x: Seq<char>| #[trigger] r.bindings_of(x) == Seq::<BindingModel>::empty(),
    {
        Exchange { entries: Vec::new() }
    }

    fn find(&self, x_name: &str) -> (r: Option<usize>)
        ensures
            ({
                let fi = find_x(self.entries@, x_name@);
                match r {
                    Some(i) => fi == i as int && i < self.entries@.len(),
                    None => fi == -1,
                }
            }),
    {
        let mut i: usize = 0;
        while i < self.entries.len()
            invariant
                i <= self.entries@.len(),
                forall|j: int| 0 <= j < i ==> self.entries@[j].name@ != x_name@,
            decreases self.entries@.len() - i,
        {
            if str_eq(self.entries[i].name.as_str(), x_name) {
                proof {
                    lemma_find_x(self.entries@, x_name@);
                }
                return Some(i);
            }
            i += 1;
        }
        proof {
            lemma_find_x(self.entries@, x_name@);
        }
        None
    }

    /// Declare an exchange with a routing mode. Idempotent when the mode
    /// matches the standing declaration; a different mode is a
    /// configuration error, and the registry stands unchanged.
    pub fn declare(&mut self, x_name: String, mode: ExchangeOption) -> (r: Result<
        (),
        ConfigError,
    >)
        requires
            old(self).wf(),
        ensures
            final(self).wf(),
            old(self).mode_of(x_name@) is None ==> r is Ok && final(self).mode_of(x_name@)
                == Some(mode) && final(self).bindings_of(x_name@) == Seq::<BindingModel>::empty(),
            old(self).mode_of(x_name@) == Some(mode) ==> r is Ok,
            old(self).mode_of(x_name@) is Some && old(self).mode_of(x_name@) != Some(mode) ==> r
                == Err::<(), ConfigError>(ConfigError::ModeMismatch),
            old(self).mode_of(x_name@) is Some ==> final(self).mode_of(x_name@) == old(self).mode_of(x_name@) && final(self).bindings_of(x_name@) == old(self).bindings_of(
                x_name@,
            ),
            forall|x: Seq<char>|
                x != x_name@ ==> #[trigger] final(self).mode_of(x) == old(self).mode_of(x) && final(self).bindings_of(x) == old(self).bindings_of(x),
    {
        let ghost es0 = self.entries@;
        match self.find(x_name.as_str()) {
            Some(i) => {
                if self.entries[i].mode == mode {
                    Ok(())
                } else {
                    Err(ConfigError::ModeMismatch)
                }
            },
            None => {
                self.entries.push(ExchangeEntry { name: x_name, mode, bindings: Vec::new() });
                proof {
                    let e = self.entries@.last();
                    lemma_find_x_push(es0, e, e.name@);
                    assert(final(self).bindings_of(e.name@) =~= Seq::<BindingModel>::empty());
                    assert forall|x: Seq<char>| x != e.name@ implies #[trigger] final(self).mode_of(x) == old(self).mode_of(x) && final(self).bindings_of(x) == old(self).bindings_of(x) by {
                        lemma_find_x_push(es0, e, x);
                        lemma_find_x(es0, x);
                    }
                    assert forall|k: int, j: int|
                        0 <= k < j < self.entries@.len() implies self.entries@[k].name@
                        != self.entries@[j].name@ by {
                        lemma_find_x(es0, e.name@);
                    }
                }
                Ok(())
            },
        }
    }

    /// Bind a queue to a declared exchange, optionally under a routing
    /// key. The binding goes at the end of the exchange's binding list;
    /// binding an unknown exchange is refused and changes nothing.
    pub fn bind(&mut self, x_name: &String, q_name: String, key: Option<String>) -> (r: Result<
        (),
        RouteError,
    >)
        requires
            old(self).wf(),
        ensures
            final(self).wf(),
            old(self).mode_of(x_name@) is None ==> r == Err::<(), RouteError>(
                RouteError::UnknownExchange,
            ) && final(self).bindings_of(x_name@) == old(self).bindings_of(x_name@),
            old(self).mode_of(x_name@) is Some ==> r is Ok && final(self).bindings_of(x_name@)
                == old(self).bindings_of(x_name@).push(
                (BindingModel {
                    q_name: q_name@,
                    key: match key {
                        Some(k) => Some(k@),
                        None => None,
                    },
                }),
            ),
            final(self).mode_of(x_name@) == old(self).mode_of(x_name@),
            forall|x: Seq<char>|
                x != x_name@ ==> #[trigger] final(self).mode_of(x) == old(self).mode_of(x) && final(self).bindings_of(x) == old(self).bindings_of(x),
    {
        let ghost es0 = self.entries@;
        match self.find(x_name.as_str()) {
            None => Err(RouteError::UnknownExchange),
            Some(i) => {
                let mut entry = self.entries.remove(i);
                entry.bindings.push(Binding { q_name, key });
                self.entries.insert(i, entry);
                proof {
                    let e = self.entries@[i as int];
                    assert(self.entries@ =~= es0.update(i as int, e));
                    lemma_find_x(es0, x_name@);
                    lemma_find_x_update(es0, i as int, e, x_name@);
                    assert(final(self).bindings_of(x_name@) =~= old(self).bindings_of(
                        x_name@,
                    ).push(e.bindings@.last()@));
                    assert forall|x: Seq<char>| x != x_name@ implies #[trigger] final(self).mode_of(x) == old(self).mode_of(x) && final(self).bindings_of(x) == old(self).bindings_of(x) by {
                        lemma_find_x_update(es0, i as int, e, x);
                        lemma_find_x(es0, x);
                    }
                    assert forall|k: int, j: int|
                        0 <= k < j < self.entries@.len() implies self.entries@[k].name@
                        != self.entries@[j].name@ by {
                        assert(es0[k].name@ != es0[j].name@);
                    }
                }
                Ok(())
            },
        }
    }

    /// Resolve a publish to the queue names it reaches.
    pub fn route(&self, x_name: &String, key: Option<&String>) -> (r: Result<
        Vec<String>,
        RouteError,
    >)
        ensures
            ({
                let k = match key {
                    Some(s) => Some(s@),
                    None => None,
                };
                let sr = self.spec_route(x_name@, k);
                match r {
                    Ok(v) => sr matches Ok(qs) && v.deep_view() == qs,
                    Err(e) => sr matches Err(e2) && e == e2,
                }
            }),
    {
        let i = match self.find(x_name.as_str()) {
            Some(i) => i,
            None => {
                return Err(RouteError::UnknownExchange);
            },
        };
        let entry = &self.entries[i];
        let mut out: Vec<String> = Vec::new();
        match entry.mode {
            ExchangeOption::Fanout => {
                let ghost bm = entry.bindings@.map_values(|b: Binding| b@);
                let mut j: usize = 0;
                while j < entry.bindings.len()
                    invariant
                        j <= entry.bindings@.len(),
                        bm == entry.bindings@.map_values(|b: Binding| b@),
                        out@.len() == j,
                        forall|t: int| 0 <= t < j ==> #[trigger] out@[t]@ == bm[t].q_name,
                    decreases entry.bindings@.len() - j,
                {
                    out.push(entry.bindings[j].q_name.clone());
                    j += 1;
                }
                proof {
                    assert(out.deep_view() =~= bm.map_values(|b: BindingModel| b.q_name));
                }
            },
            ExchangeOption::Direct => {
                match key {
                    None => {},
                    Some(k) => {
                        let ghost bm = entry.bindings@.map_values(|b: Binding| b@);
                        let mut j: usize = 0;
                        while j < entry.bindings.len()
                            invariant
                                j <= entry.bindings@.len(),
                                bm == entry.bindings@.map_values(|b: Binding| b@),
                                out.deep_view() == direct_matches(
                                    bm.take(j as int),
                                    k@,
                                ),
                            decreases entry.bindings@.len() - j,
                        {
                            let b = &entry.bindings[j];
                            let matched = match &b.key {
                                Some(bk) => str_eq(bk.as_str(), k.as_str()),
                                None => false,
                            };
                            proof {
                                assert(bm.take(j as int + 1).drop_last() =~= bm.take(j as int));
                                assert(bm.take(j as int + 1).last() == bm[j as int]);
                            }
                            if matched {
                                out.push(b.q_name.clone());
                                proof {
                                    assert(out.deep_view() =~= direct_matches(
                                        bm.take(j as int + 1),
                                        k@,
                                    ));
                                }
                            } else {
                                proof {
                                    assert(out.deep_view() =~= direct_matches(
                                        bm.take(j as int + 1),
                                        k@,
                                    ));
                                }
                            }
                            j += 1;
                        }
                        proof {
                            assert(bm.take(bm.len() as int) =~= bm);
                        }
                    },
                }
            },
        }
        Ok(out)
    }

    /// What one publish adds to the queue named `n` through this
    /// registry: nothing if it cannot be routed, else one copy of its
    /// data per target occurrence of `n`.
    pub open spec fn spec_deliver(self, p: SendPayload, n: Seq<char>) -> Seq<String> {
        match self.spec_route(p.x_name@, payload_key(p)) {
            Err(_) => Seq::empty(),
            Ok(qs) => occurrences(qs, n, p.data),
        }
    }

    /// What a whole batch adds to the queue named `n`, in batch order.
    pub open spec fn spec_deliveries(self, batch: Seq<SendPayload>, n: Seq<char>) -> Seq<String>
        decreases batch.len(),
    {
        if batch.len() == 0 {
            Seq::empty()
        } else {
            self.spec_deliveries(batch.drop_last(), n) + self.spec_deliver(batch.last(), n)
        }
    }

    /// The routing diagnostics one flush records, in batch order: one
    /// entry per publish whose exchange is unknown.
    pub open spec fn spec_dropped(self, batch: Seq<SendPayload>) -> Seq<RouteError>
        decreases batch.len(),
    {
        if batch.len() == 0 {
            Seq::empty()
        } else {
            self.spec_dropped(batch.drop_last()) + (match self.spec_route(
                batch.last().x_name@,
                payload_key(batch.last()),
            ) {
                Err(e) => seq![e],
                Ok(_) => Seq::empty(),
            })
        }
    }

    /// Read one frame out of the bytes a connection delivered; refuse
    /// exactly the inputs the codec refuses, with the same error.
    pub fn parse_payload(&self, bytes: &[u8]) -> (r: Result<RequestType, ProtocolError>)
        ensures
            ({
                let sr = spec_decode(bytes@);
                match r {
                    Ok(f) => sr matches Ok(m) && f@ == m,
                    Err(e) => sr matches Err(e2) && e == e2,
                }
            }),
    {
        decode(bytes)
    }

    /// Commit a drained batch: route each pending publish and push its
    /// payload into every target queue, in batch order, under whatever
    /// lock the caller holds on the store. A publish whose exchange is
    /// unknown is recorded and skipped, never aborting the rest; when the
    /// call returns, the batch is empty and everything it delivered is
    /// visible in the target queues.
    pub fn process_batch(&self, batch: &mut Vec<SendPayload>, store: &mut QState) -> (dropped: Vec<
        RouteError,
    >)
        requires
            old(store).wf(),
        ensures
            final(store).wf(),
            final(batch)@.len() == 0,
            forall|n: Seq<char>| #[trigger] final(store).contents(n) == old(store).contents(n)
                + self.spec_deliveries(old(batch)@, n),
            dropped@ == self.spec_dropped(old(batch)@),
    {
        let ghost batch0 = batch@;
        let mut dropped: Vec<RouteError> = Vec::new();
        proof {
            assert(batch0.take(0) =~= Seq::<SendPayload>::empty());
            assert forall|n: Seq<char>| #[trigger] store.contents(n) == old(store).contents(n)
                + self.spec_deliveries(batch0.take(0), n) by {
                assert(old(store).contents(n) + self.spec_deliveries(batch0.take(0), n)
                    =~= old(store).contents(n));
            }
        }
        let mut idx: usize = 0;
        while idx < batch.len()
            invariant
                idx <= batch@.len(),
                batch@ == batch0,
                store.wf(),
                forall|n: Seq<char>| #[trigger] store.contents(n) == old(store).contents(n)
                    + self.spec_deliveries(batch0.take(idx as int), n),
                dropped@ == self.spec_dropped(batch0.take(idx as int)),
            decreases batch@.len() - idx,
        {
            proof {
                assert(batch0.take(idx as int + 1).drop_last() =~= batch0.take(idx as int));
                assert(batch0.take(idx as int + 1).last() == batch0[idx as int]);
            }
            let ghost smid = *store;
            let p = &batch[idx];
            let key_is_empty = p.q_name.as_str().is_empty();
            let r = if key_is_empty {
                self.route(&p.x_name, None)
            } else {
                self.route(&p.x_name, Some(&p.q_name))
            };
            match r {
                Ok(qs) => {
                    let ghost qsv = qs.deep_view();
                    let ghost pdata = p.data;
                    proof {
                        assert(qsv.take(0) =~= Seq::<Seq<char>>::empty());
                        assert forall|n: Seq<char>| #[trigger] store.contents(n)
                            == smid.contents(n) + occurrences(qsv.take(0), n, pdata) by {
                            assert(smid.contents(n) + occurrences(qsv.take(0), n, pdata)
                                =~= smid.contents(n));
                        }
                    }
                    let mut j: usize = 0;
                    while j < qs.len()
                        invariant
                            j <= qs@.len(),
                            qsv == qs.deep_view(),
                            qs@.len() == qsv.len(),
                            store.wf(),
                            pdata == p.data,
                            forall|n: Seq<char>| #[trigger] store.contents(n) == smid.contents(
                                n,
                            ) + occurrences(qsv.take(j as int), n, pdata),
                        decreases qs@.len() - j,
                    {
                        proof {
                            assert(qsv.take(j as int + 1).drop_last() =~= qsv.take(j as int));
                            assert(qsv.take(j as int + 1).last() == qsv[j as int]);
                            assert(qsv[j as int] == qs@[j as int]@);
                        }
                        let ghost sprev = *store;
                        store.push(qs[j].clone(), p.data.clone());
                        proof {
                            assert forall|n: Seq<char>| #[trigger] store.contents(n)
                                == smid.contents(n) + occurrences(
                                qsv.take(j as int + 1),
                                n,
                                pdata,
                            ) by {
                                if n == qsv[j as int] {
                                    assert(store.contents(n) == sprev.contents(n).push(pdata));
                                    assert((smid.contents(n) + occurrences(
                                        qsv.take(j as int),
                                        n,
                                        pdata,
                                    )).push(pdata) =~= smid.contents(n) + occurrences(
                                        qsv.take(j as int),
                                        n,
                                        pdata,
                                    ).push(pdata));
                                } else {
                                    assert(store.contents(n) == sprev.contents(n));
                                }
                            }
                        }
                        j += 1;
                    }
                    proof {
                        assert(qsv.take(qsv.len() as int) =~= qsv);
                        assert forall|n: Seq<char>| #[trigger] store.contents(n) == old(
                            store,
                        ).contents(n) + self.spec_deliveries(batch0.take(idx as int + 1), n) by {
                            assert(self.spec_deliver(batch0[idx as int], n) == occurrences(
                                qsv,
                                n,
                                pdata,
                            ));
                            assert((old(store).contents(n) + self.spec_deliveries(
                                batch0.take(idx as int),
                                n,
                            )) + occurrences(qsv, n, pdata) =~= old(store).contents(n) + (
                            self.spec_deliveries(batch0.take(idx as int), n) + occurrences(
                                qsv,
                                n,
                                pdata,
                            )));
                        }
                        assert(dropped@ =~= self.spec_dropped(batch0.take(idx as int + 1)));
                    }
                },
                Err(e) => {
                    dropped.push(e);
                    proof {
                        assert(dropped@ =~= self.spec_dropped(batch0.take(idx as int + 1)));
                        assert forall|n: Seq<char>| #[trigger] store.contents(n) == old(
                            store,
                        ).contents(n) + self.spec_deliveries(batch0.take(idx as int + 1), n) by {
                            assert(self.spec_deliver(batch0[idx as int], n)
                                == Seq::<String>::empty());
                            assert(old(store).contents(n) + (self.spec_deliveries(
                                batch0.take(idx as int),
                                n,
                            ) + Seq::<String>::empty()) =~= old(store).contents(n)
                                + self.spec_deliveries(batch0.take(idx as int), n));
                        }
                    }
                },
            }
            idx += 1;
        }
        proof {
            assert(batch0.take(batch0.len() as int) =~= batch0);
        }
        batch.clear();
        dropped
    }
}

proof fn lemma_occurrences_contains(qs: Seq<Seq<char>>, i: int, data: String)
    requires
        0 <= i < qs.len(),
    ensures
        occurrences(qs, qs[i], data).contains(data),
    decreases qs.len(),
{
    let rest = occurrences(qs.drop_last(), qs[i], data);
    if i == qs.len() - 1 {
        assert(occurrences(qs, qs[i], data) == rest.push(data));
        assert(rest.push(data)[rest.len() as int] == data);
    } else {
        assert(qs.drop_last()[i] == qs[i]);
        lemma_occurrences_contains(qs.drop_last(), i, data);
        let w = choose|w: int| 0 <= w < rest.len() && rest[w] == data;
        if qs.last() == qs[i] {
            assert(occurrences(qs, qs[i], data)[w] == data);
        } else {
            assert(occurrences(qs, qs[i], data)[w] == data);
        }
    }
}

/// Fanout delivery: a publish through a fanout exchange adds its payload
/// to every bound queue. Whichever binding you pick, the payload is among
/// what the publish delivers to that binding's queue.
pub proof fn lemma_fanout_reaches_all(reg: Exchange, p: SendPayload, i: int)
    requires
        reg.mode_of(p.x_name@) == Some(ExchangeOption::Fanout),
        0 <= i < reg.bindings_of(p.x_name@).len(),
    ensures
        reg.spec_deliver(p, reg.bindings_of(p.x_name@)[i].q_name).contains(p.data),
{
    let qs = reg.bindings_of(p.x_name@).map_values(|b: BindingModel| b.q_name);
    assert(qs[i] == reg.bindings_of(p.x_name@)[i].q_name);
    lemma_occurrences_contains(qs, i, p.data);
}

/// Direct routing reaches exactly the bindings whose key equals the
/// publish key: every reached queue comes from such a binding, a key
/// that matches no binding reaches nothing, and every matching binding's
/// queue is reached.
pub proof fn lemma_direct_routing(bs: Seq<BindingModel>, key: Seq<char>)
    ensures
        forall|t: int|
            0 <= t < direct_matches(bs, key).len() ==> exists|j: int|
                0 <= j < bs.len() && bs[j].key == Some(key) && #[trigger] direct_matches(
                    bs,
                    key,
                )[t] == bs[j].q_name,
        (forall|j: int| 0 <= j < bs.len() ==> (#[trigger] bs[j]).key != Some(key))
            ==> direct_matches(bs, key).len() == 0,
        forall|j: int|
            0 <= j < bs.len() && (#[trigger] bs[j]).key == Some(key) ==> direct_matches(
                bs,
                key,
            ).contains(bs[j].q_name),
    decreases bs.len(),
{
    if bs.len() == 0 {
    } else {
        let d = bs.drop_last();
        lemma_direct_routing(d, key);
        let rest = direct_matches(d, key);
        let m = direct_matches(bs, key);
        assert(forall|j: int| 0 <= j < d.len() ==> d[j] == bs[j]);
        assert forall|t: int| 0 <= t < m.len() implies exists|j: int|
            0 <= j < bs.len() && bs[j].key == Some(key) && #[trigger] m[t] == bs[j].q_name by {
            if bs.last().key == Some(key) && t == m.len() - 1 {
                assert(bs[bs.len() - 1].key == Some(key) && m[t] == bs[bs.len() - 1].q_name);
            } else {
                assert(0 <= t < rest.len() && m[t] == rest[t]);
                let j = choose|j: int|
                    0 <= j < d.len() && d[j].key == Some(key) && rest[t] == d[j].q_name;
                assert(bs[j].key == Some(key) && m[t] == bs[j].q_name);
            }
        }
        if forall|j: int| 0 <= j < bs.len() ==> (#[trigger] bs[j]).key != Some(key) {
            assert(bs[bs.len() - 1].key != Some(key));
            assert forall|j: int| 0 <= j < d.len() implies (#[trigger] d[j]).key != Some(
                key,
            ) by {
                assert(d[j] == bs[j]);
            }
            assert(rest.len() == 0);
        }
        assert forall|j: int|
            0 <= j < bs.len() && (#[trigger] bs[j]).key == Some(key) implies m.contains(
            bs[j].q_name,
        ) by {
            if j == bs.len() - 1 {
                assert(m == rest.push(bs.last().q_name));
                assert(m[m.len() - 1] == bs[j].q_name);
            } else {
                assert(d[j] == bs[j]);
                assert(rest.contains(d[j].q_name));
                let w = choose|w: int| 0 <= w < rest.len() && rest[w] == d[j].q_name;
                assert(m[w] == bs[j].q_name);
            }
        }
    }
}

/// Batch-flush visibility: whatever one publish of a batch delivers to a
/// queue is among what the whole batch delivers to it, so once a flush
/// returns, every payload of the batch is visible in its target queues.
pub proof fn lemma_batch_flush_visible(
    reg: Exchange,
    batch: Seq<SendPayload>,
    i: int,
    n: Seq<char>,
    s: String,
)
    requires
        0 <= i < batch.len(),
        reg.spec_deliver(batch[i], n).contains(s),
    ensures
        reg.spec_deliveries(batch, n).contains(s),
    decreases batch.len(),
{
    let d = batch.drop_last();
    let dl = reg.spec_deliveries(d, n);
    let last_del = reg.spec_deliver(batch.last(), n);
    if i == batch.len() - 1 {
        let w = choose|w: int| 0 <= w < last_del.len() && last_del[w] == s;
        assert(reg.spec_deliveries(batch, n)[dl.len() + w] == s);
    } else {
        assert(d[i] == batch[i]);
        lemma_batch_flush_visible(reg, d, i, n, s);
        let w = choose|w: int| 0 <= w < dl.len() && dl[w] == s;
        assert(reg.spec_deliveries(batch, n)[w] == s);
    }
}

} // verus!

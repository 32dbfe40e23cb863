use vstd::prelude::*;

use crate::types::{Address, DataSource, EventSignature, H2048, Log};

verus! {

/// Interest in logs, as a bipartite relation between contract addresses
/// and event signatures: a pair `(c, e)` means a log emitted by `c` whose
/// first topic is `e` is of interest. Signatures in `wildcard_events`
/// match regardless of the emitting address.
#[derive(Clone, Debug)]
pub struct EthereumLogFilter {
    /// The edges of the bipartite relation, each pair stored once.
    contracts_and_events: Vec<(Address, EventSignature)>,
    /// Event signatures with no associated address, matching on all addresses.
    wildcard_events: Vec<EventSignature>,
}

impl EthereumLogFilter {
    /// The edges of the bipartite contract/event relation.
    pub closed spec fn edge_set(self) -> Set<(Address, EventSignature)> {
        self.contracts_and_events@.to_set()
    }

    /// The signatures that match regardless of address.
    pub closed spec fn wildcard_set(self) -> Set<EventSignature> {
        self.wildcard_events@.to_set()
    }

    /// Each edge and each wildcard is stored exactly once.
    pub closed spec fn wf(self) -> bool {
        &&& forall|i: int, j: int|
            0 <= i < j < self.contracts_and_events@.len()
                ==> self.contracts_and_events@[i] != self.contracts_and_events@[j]
        &&& forall|i: int, j: int|
            0 <= i < j < self.wildcard_events@.len() ==> self.wildcard_events@[i]
                != self.wildcard_events@[j]
    }

    /// A log is of interest iff it has a first topic and either the pair
    /// (address, first topic) is an edge or the first topic is a wildcard.
    pub open spec fn spec_matches(self, log: Log) -> bool {
        &&& log.topics@.len() > 0
        &&& (self.edge_set().contains((log.address, log.topics@[0])) || self.wildcard_set().contains(
            log.topics@[0],
        ))
    }

    /// Whether the bloom prefilter keeps a block with this bloom. The check
    /// is conservative: it may keep a block without a matching log, and it
    /// never drops a block holding one. The current check keeps every block.
    pub open spec fn spec_check_bloom(self, bloom: H2048) -> bool {
        true
    }

    fn contains_edge(&self, a: Address, e: EventSignature) -> (r: bool)
        ensures
            r == self.edge_set().contains((a, e)),
    {
        let n = self.contracts_and_events.len();
        let mut k: usize = 0;
        while k < n
            invariant
                n == self.contracts_and_events@.len(),
                k <= n,
                forall|j: int| 0 <= j < k ==> self.contracts_and_events@[j] != ((a, e)),
            decreases n - k,
        {
            let p = self.contracts_and_events[k];
            if p.0 == a && p.1 == e {
                proof {
                    assert(self.contracts_and_events@[k as int] == (a, e));
                }
                return true;
            }
            k += 1;
        }
        false
    }

    fn contains_wildcard(&self, e: EventSignature) -> (r: bool)
        ensures
            r == self.wildcard_set().contains(e),
    {
        let n = self.wildcard_events.len();
        let mut k: usize = 0;
        while k < n
            invariant
                n == self.wildcard_events@.len(),
                k <= n,
                forall|j: int| 0 <= j < k ==> self.wildcard_events@[j] != e,
            decreases n - k,
        {
            if self.wildcard_events[k] == e {
                proof {
                    assert(self.wildcard_events@[k as int] == e);
                }
                return true;
            }
            k += 1;
        }
        false
    }

    fn insert_edge(&mut self, a: Address, e: EventSignature)
        requires
            old(self).wf(),
        ensures
            final(self).wf(),
            final(self).edge_set() == old(self).edge_set().insert((a, e)),
            final(self).wildcard_events == old(self).wildcard_events,
    {
        if !self.contains_edge(a, e) {
            let ghost s0 = self.contracts_and_events@;
            self.contracts_and_events.push((a, e));
            proof {
                s0.lemma_push_to_set_commute((a, e));
                assert forall|i: int, j: int|
                    0 <= i < j < self.contracts_and_events@.len() implies self.contracts_and_events@[i]
                    != self.contracts_and_events@[j] by {
                    if j == s0.len() {
                        assert(s0.contains(self.contracts_and_events@[i]) || i >= s0.len()) by {
                            assert(self.contracts_and_events@[i] == s0[i]);
                        }
                    }
                }
            }
        } else {
            proof {
                assert(old(self).edge_set().insert((a, e)) =~= old(self).edge_set());
            }
        }
    }

    fn insert_wildcard(&mut self, e: EventSignature)
        requires
            old(self).wf(),
        ensures
            final(self).wf(),
            final(self).wildcard_set() == old(self).wildcard_set().insert(e),
            final(self).contracts_and_events == old(self).contracts_and_events,
    {
        if !self.contains_wildcard(e) {
            let ghost s0 = self.wildcard_events@;
            self.wildcard_events.push(e);
            proof {
                s0.lemma_push_to_set_commute(e);
                assert forall|i: int, j: int|
                    0 <= i < j < self.wildcard_events@.len() implies self.wildcard_events@[i]
                    != self.wildcard_events@[j] by {
                    if j == s0.len() {
                        assert(self.wildcard_events@[i] == s0[i]);
                    }
                }
            }
        } else {
            proof {
                assert(old(self).wildcard_set().insert(e) =~= old(self).wildcard_set());
            }
        }
    }

    /// Adds the log interests declared by one data source.
    #[verifier::loop_isolation(false)]
    fn add_data_source(&mut self, ds: &DataSource)
        requires
            old(self).wf(),
        ensures
            final(self).wf(),
            final(self).edge_set() == old(self).edge_set().union(ds_log_edges(*ds)),
            final(self).wildcard_set() == old(self).wildcard_set().union(ds_wildcard_events(*ds)),
    {
        let handlers = &ds.mapping.event_handlers;
        let n = handlers.len();
        match &ds.source.address {
            Some(contract) => {
                let a = *contract;
                let mut k: usize = 0;
                while k < n
                    invariant
                        k <= n,
                        self.wf(),
                        self.wildcard_events == old(self).wildcard_events,
                        self.edge_set() == old(self).edge_set().union(
                            Set::new(
                                |p: (Address, EventSignature)|
                                    p.0 == a && handlers@.take(k as int).contains(p.1),
                            ),
                        ),
                    decreases n - k,
                {
                    let ghost pre = self.edge_set();
                    self.insert_edge(a, handlers[k]);
                    proof {
                        let tk = handlers@.take(k as int);
                        let tk1 = handlers@.take(k + 1 as int);
                        let np = (a, handlers@[k as int]);
                        let target = old(self).edge_set().union(
                            Set::new(
                                |p: (Address, EventSignature)| p.0 == a && tk1.contains(p.1),
                            ),
                        );
                        assert(tk1 =~= tk.push(handlers@[k as int]));
                        assert forall|p: (Address, EventSignature)|
                            self.edge_set().contains(p) implies target.contains(p) by {
                            if p == np {
                                assert(tk1[tk.len() as int] == handlers@[k as int]);
                                assert(tk1.contains(p.1));
                            } else if !old(self).edge_set().contains(p) {
                                let j = choose|j: int| 0 <= j < tk.len() && (#[trigger] tk[j]) == p.1;
                                assert(tk1[j] == p.1);
                                assert(tk1.contains(p.1));
                            }
                        }
                        assert forall|p: (Address, EventSignature)|
                            target.contains(p) implies self.edge_set().contains(p) by {
                            if !old(self).edge_set().contains(p) {
                                let j = choose|j: int| 0 <= j < tk1.len() && (#[trigger] tk1[j]) == p.1;
                                if j < k as int {
                                    assert(tk[j] == p.1);
                                    assert(tk.contains(p.1));
                                    assert(pre.contains(p));
                                } else {
                                    assert(p.1 == handlers@[k as int]);
                                    assert(p =~= np);
                                }
                            }
                        }
                        assert(self.edge_set() =~= target);
                    }
                    k += 1;
                }
                proof {
                    assert(handlers@.take(n as int) =~= handlers@);
                    assert(ds_log_edges(*ds) =~= Set::new(
                        |p: (Address, EventSignature)| p.0 == a && handlers@.contains(p.1),
                    ));
                    assert(ds_wildcard_events(*ds) =~= Set::<EventSignature>::empty());
                    assert(self.wildcard_set() =~= old(self).wildcard_set().union(
                        Set::<EventSignature>::empty(),
                    ));
                }
            },
            None => {
                let mut k: usize = 0;
                while k < n
                    invariant
                        k <= n,
                        self.wf(),
                        self.contracts_and_events == old(self).contracts_and_events,
                        self.wildcard_set() == old(self).wildcard_set().union(
                            handlers@.take(k as int).to_set(),
                        ),
                    decreases n - k,
                {
                    self.insert_wildcard(handlers[k]);
                    proof {
                        assert(handlers@.take(k + 1 as int) =~= handlers@.take(k as int).push(
                            handlers@[k as int],
                        ));
                        handlers@.take(k as int).lemma_push_to_set_commute(handlers@[k as int]);
                        assert(self.wildcard_set() =~= old(self).wildcard_set().union(
                            handlers@.take(k + 1 as int).to_set(),
                        ));
                    }
                    k += 1;
                }
                proof {
                    assert(handlers@.take(n as int) =~= handlers@);
                    assert(ds_wildcard_events(*ds) =~= handlers@.to_set());
                    assert(ds_log_edges(*ds) =~= Set::<(Address, EventSignature)>::empty());
                    assert(self.edge_set() =~= old(self).edge_set().union(
                        Set::<(Address, EventSignature)>::empty(),
                    ));
                }
            },
        }
    }

    /// Builds the log filter declared by a list of data sources: for every
    /// event handler, an edge when the data source names an address and a
    /// wildcard when it does not.
    #[verifier::loop_isolation(false)]
    pub fn from_data_sources(sources: &Vec<DataSource>) -> (r: Self)
        ensures
            r.wf(),
            r.edge_set() == source_log_edges(sources@),
            r.wildcard_set() == source_wildcard_events(sources@),
    {
        let mut this = EthereumLogFilter { contracts_and_events: Vec::new(), wildcard_events: Vec::new() };
        let n = sources.len();
        let mut i: usize = 0;
        proof {
            assert(this.edge_set() =~= source_log_edges(sources@.take(0)));
            assert(this.wildcard_set() =~= source_wildcard_events(sources@.take(0)));
        }
        while i < n
            invariant
                i <= n,
                this.wf(),
                this.edge_set() == source_log_edges(sources@.take(i as int)),
                this.wildcard_set() == source_wildcard_events(sources@.take(i as int)),
            decreases n - i,
        {
            this.add_data_source(&sources[i]);
            proof {
                lemma_source_sets_take_succ(sources@, i as int);
            }
            i += 1;
        }
        proof {
            assert(sources@.take(n as int) =~= sources@);
        }
        this
    }

    /// Extends this log filter with another one: the union of the edges and
    /// the union of the wildcards.
    #[verifier::loop_isolation(false)]
    pub fn extend(&mut self, other: EthereumLogFilter)
        requires
            old(self).wf(),
        ensures
            final(self).wf(),
            final(self).edge_set() == old(self).edge_set().union(other.edge_set()),
            final(self).wildcard_set() == old(self).wildcard_set().union(other.wildcard_set()),
    {
        let EthereumLogFilter { contracts_and_events, wildcard_events } = other;
        let n = contracts_and_events.len();
        let mut k: usize = 0;
        proof {
            assert(old(self).edge_set() =~= old(self).edge_set().union(
                contracts_and_events@.take(0).to_set(),
            ));
        }
        while k < n
            invariant
                k <= n,
                self.wf(),
                self.wildcard_events == old(self).wildcard_events,
                self.edge_set() == old(self).edge_set().union(
                    contracts_and_events@.take(k as int).to_set(),
                ),
            decreases n - k,
        {
            let p = contracts_and_events[k];
            self.insert_edge(p.0, p.1);
            proof {
                assert(contracts_and_events@.take(k + 1 as int) =~= contracts_and_events@.take(
                    k as int,
                ).push(contracts_and_events@[k as int]));
                contracts_and_events@.take(k as int).lemma_push_to_set_commute(
                    contracts_and_events@[k as int],
                );
                assert((p.0, p.1) == contracts_and_events@[k as int]);
                assert(self.edge_set() =~= old(self).edge_set().union(
                    contracts_and_events@.take(k + 1 as int).to_set(),
                ));
            }
            k += 1;
        }
        proof {
            assert(contracts_and_events@.take(n as int) =~= contracts_and_events@);
        }
        let m = wildcard_events.len();
        let mut j: usize = 0;
        proof {
            assert(self.wildcard_set() =~= old(self).wildcard_set().union(
                wildcard_events@.take(0).to_set(),
            ));
        }
        while j < m
            invariant
                j <= m,
                self.wf(),
                self.edge_set() == old(self).edge_set().union(other.edge_set()),
                self.wildcard_set() == old(self).wildcard_set().union(
                    wildcard_events@.take(j as int).to_set(),
                ),
            decreases m - j,
        {
            self.insert_wildcard(wildcard_events[j]);
            proof {
                assert(wildcard_events@.take(j + 1 as int) =~= wildcard_events@.take(j as int).push(
                    wildcard_events@[j as int],
                ));
                wildcard_events@.take(j as int).lemma_push_to_set_commute(
                    wildcard_events@[j as int],
                );
                assert(self.wildcard_set() =~= old(self).wildcard_set().union(
                    wildcard_events@.take(j + 1 as int).to_set(),
                ));
            }
            j += 1;
        }
        proof {
            assert(wildcard_events@.take(m as int) =~= wildcard_events@);
        }
    }

    /// Check if this filter matches the specified `Log`.
    pub fn matches(&self, log: &Log) -> (r: bool)
        ensures
            r == self.spec_matches(*log),
    {
        if log.topics.len() == 0 {
            return false;
        }
        let sig = log.topics[0];
        if self.contains_wildcard(sig) {
            return true;
        }
        self.contains_edge(log.address, sig)
    }

    /// Check if the log bloom filter indicates a possible match for this
    /// log filter. `true` means a matching log might be contained; `false`
    /// would mean a matching log is not contained.
    pub fn check_bloom(&self, bloom: &H2048) -> (r: bool)
        ensures
            r == self.spec_check_bloom(*bloom),
    {
        true
    }

    /// An empty filter is one that never matches.
    pub fn is_empty(&self) -> (r: bool)
        ensures
            r == (self.edge_set() == Set::<(Address, EventSignature)>::empty()
                && self.wildcard_set() == Set::<EventSignature>::empty()),
    {
        let r = self.contracts_and_events.len() == 0 && self.wildcard_events.len() == 0;
        proof {
            if self.contracts_and_events@.len() == 0 {
                assert(self.edge_set() =~= Set::<(Address, EventSignature)>::empty());
            } else {
                assert(self.edge_set().contains(self.contracts_and_events@[0]));
            }
            if self.wildcard_events@.len() == 0 {
                assert(self.wildcard_set() =~= Set::<EventSignature>::empty());
            } else {
                assert(self.wildcard_set().contains(self.wildcard_events@[0]));
            }
        }
        r
    }

    /// An empty filter never matches any log.
    pub proof fn lemma_empty_filter_never_matches(self, log: Log)
        requires
            self.edge_set() == Set::<(Address, EventSignature)>::empty(),
            self.wildcard_set() == Set::<EventSignature>::empty(),
        ensures
            !self.spec_matches(log),
    {
    }

    /// The bloom prefilter is conservative: a log matched by the filter is
    /// never ruled out by the bloom check.
    pub proof fn lemma_matches_implies_check_bloom(self, log: Log, bloom: H2048)
        ensures
            self.spec_matches(log) ==> self.spec_check_bloom(bloom),
    {
    }
}

impl Default for EthereumLogFilter {
    /// The filter with no edges and no wildcards.
    fn default() -> (r: Self)
        ensures
            r.wf(),
            r.edge_set() == Set::<(Address, EventSignature)>::empty(),
            r.wildcard_set() == Set::<EventSignature>::empty(),
    {
        let r = EthereumLogFilter { contracts_and_events: Vec::new(), wildcard_events: Vec::new() };
        proof {
            assert(r.edge_set() =~= Set::<(Address, EventSignature)>::empty());
            assert(r.wildcard_set() =~= Set::<EventSignature>::empty());
        }
        r
    }
}

/// The edges one data source declares: nothing without an address, else one
/// edge per declared event signature.
pub open spec fn ds_log_edges(ds: DataSource) -> Set<(Address, EventSignature)> {
    Set::new(
        |p: (Address, EventSignature)|
            ds.source.address == Some(p.0) && ds.mapping.event_handlers@.contains(p.1),
    )
}

/// The wildcards one data source declares: its event signatures when it
/// names no address, nothing otherwise.
pub open spec fn ds_wildcard_events(ds: DataSource) -> Set<EventSignature> {
    Set::new(
        |e: EventSignature|
            ds.source.address is None && ds.mapping.event_handlers@.contains(e),
    )
}

/// The edges declared across a list of data sources.
pub open spec fn source_log_edges(dss: Seq<DataSource>) -> Set<(Address, EventSignature)> {
    Set::new(
        |p: (Address, EventSignature)|
            exists|i: int| 0 <= i < dss.len() && ds_log_edges(#[trigger] dss[i]).contains(p),
    )
}

/// The wildcards declared across a list of data sources.
pub open spec fn source_wildcard_events(dss: Seq<DataSource>) -> Set<EventSignature> {
    Set::new(
        |e: EventSignature|
            exists|i: int| 0 <= i < dss.len() && ds_wildcard_events(#[trigger] dss[i]).contains(e),
    )
}

proof fn lemma_source_sets_take_succ(dss: Seq<DataSource>, i: int)
    requires
        0 <= i < dss.len(),
    ensures
        source_log_edges(dss.take(i + 1)) == source_log_edges(dss.take(i)).union(
            ds_log_edges(dss[i]),
        ),
        source_wildcard_events(dss.take(i + 1)) == source_wildcard_events(dss.take(i)).union(
            ds_wildcard_events(dss[i]),
        ),
{
    assert forall|p: (Address, EventSignature)|
        source_log_edges(dss.take(i + 1)).contains(p) implies source_log_edges(
        dss.take(i),
    ).union(ds_log_edges(dss[i])).contains(p) by {
        let j = choose|j: int|
            0 <= j < dss.take(i + 1).len() && ds_log_edges(#[trigger] dss.take(i + 1)[j]).contains(
                p,
            );
        if j < i {
            assert(dss.take(i)[j] == dss.take(i + 1)[j]);
            assert(ds_log_edges(dss.take(i)[j]).contains(p));
        } else {
            assert(dss.take(i + 1)[j] == dss[i]);
        }
    }
    assert forall|p: (Address, EventSignature)|
        source_log_edges(dss.take(i)).union(ds_log_edges(dss[i])).contains(
            p,
        ) implies source_log_edges(dss.take(i + 1)).contains(p) by {
        if source_log_edges(dss.take(i)).contains(p) {
            let j = choose|j: int|
                0 <= j < dss.take(i).len() && ds_log_edges(#[trigger] dss.take(i)[j]).contains(p);
            assert(dss.take(i + 1)[j] == dss.take(i)[j]);
            assert(ds_log_edges(dss.take(i + 1)[j]).contains(p));
        } else {
            assert(dss.take(i + 1)[i] == dss[i]);
            assert(ds_log_edges(dss.take(i + 1)[i]).contains(p));
        }
    }
    assert(source_log_edges(dss.take(i + 1)) =~= source_log_edges(dss.take(i)).union(
        ds_log_edges(dss[i]),
    ));
    assert forall|e: EventSignature|
        source_wildcard_events(dss.take(i + 1)).contains(e) implies source_wildcard_events(
        dss.take(i),
    ).union(ds_wildcard_events(dss[i])).contains(e) by {
        let j = choose|j: int|
            0 <= j < dss.take(i + 1).len() && ds_wildcard_events(
                #[trigger] dss.take(i + 1)[j],
            ).contains(e);
        if j < i {
            assert(dss.take(i)[j] == dss.take(i + 1)[j]);
            assert(ds_wildcard_events(dss.take(i)[j]).contains(e));
        } else {
            assert(dss.take(i + 1)[j] == dss[i]);
        }
    }
    assert forall|e: EventSignature|
        source_wildcard_events(dss.take(i)).union(ds_wildcard_events(dss[i])).contains(
            e,
        ) implies source_wildcard_events(dss.take(i + 1)).contains(e) by {
        if source_wildcard_events(dss.take(i)).contains(e) {
            let j = choose|j: int|
                0 <= j < dss.take(i).len() && ds_wildcard_events(
                    #[trigger] dss.take(i)[j],
                ).contains(e);
            assert(dss.take(i + 1)[j] == dss.take(i)[j]);
            assert(ds_wildcard_events(dss.take(i + 1)[j]).contains(e));
        } else {
            assert(dss.take(i + 1)[i] == dss[i]);
            assert(ds_wildcard_events(dss.take(i + 1)[i]).contains(e));
        }
    }
    assert(source_wildcard_events(dss.take(i + 1)) =~= source_wildcard_events(dss.take(i)).union(
        ds_wildcard_events(dss[i]),
    ));
}

/// The direct reading of a list of data sources: a log is of interest iff
/// some data source declares its first topic and either names the log's
/// address or names no address at all.
pub open spec fn sources_match_log(dss: Seq<DataSource>, log: Log) -> bool {
    &&& log.topics@.len() > 0
    &&& exists|i: int|
        0 <= i < dss.len() && (#[trigger] dss[i]).mapping.event_handlers@.contains(log.topics@[0])
            && (dss[i].source.address == Some(log.address) || dss[i].source.address is None)
}

/// Round trip: the filter built from a list of data sources matches a log
/// exactly when the data sources, read directly, declare an interest in it.
pub proof fn lemma_from_data_sources_matches(
    f: EthereumLogFilter,
    dss: Seq<DataSource>,
    log: Log,
)
    requires
        f.edge_set() == source_log_edges(dss),
        f.wildcard_set() == source_wildcard_events(dss),
    ensures
        f.spec_matches(log) == sources_match_log(dss, log),
{
    if f.spec_matches(log) {
        let sig = log.topics@[0];
        if f.edge_set().contains((log.address, sig)) {
            let i = choose|i: int|
                0 <= i < dss.len() && ds_log_edges(#[trigger] dss[i]).contains((log.address, sig));
            assert(dss[i].mapping.event_handlers@.contains(sig));
        } else {
            let i = choose|i: int|
                0 <= i < dss.len() && ds_wildcard_events(#[trigger] dss[i]).contains(sig);
            assert(dss[i].mapping.event_handlers@.contains(sig));
        }
    }
    if sources_match_log(dss, log) {
        let sig = log.topics@[0];
        let i = choose|i: int|
            0 <= i < dss.len() && (#[trigger] dss[i]).mapping.event_handlers@.contains(sig) && (
            dss[i].source.address == Some(log.address) || dss[i].source.address is None);
        if dss[i].source.address == Some(log.address) {
            assert(ds_log_edges(dss[i]).contains((log.address, sig)));
            assert(f.edge_set().contains((log.address, sig)));
        } else {
            assert(ds_wildcard_events(dss[i]).contains(sig));
            assert(f.wildcard_set().contains(sig));
        }
    }
}

/// Merging log filters is commutative: the union of edges and of wildcards
/// does not depend on the order of the operands, so extending `a` with `b`
/// and extending `b` with `a` yield the same filter.
pub proof fn lemma_extend_commutative(a: EthereumLogFilter, b: EthereumLogFilter)
    ensures
        a.edge_set().union(b.edge_set()) == b.edge_set().union(a.edge_set()),
        a.wildcard_set().union(b.wildcard_set()) == b.wildcard_set().union(a.wildcard_set()),
{
    assert(a.edge_set().union(b.edge_set()) =~= b.edge_set().union(a.edge_set()));
    assert(a.wildcard_set().union(b.wildcard_set()) =~= b.wildcard_set().union(a.wildcard_set()));
}

/// Merging log filters is associative: folding three filters together
/// yields the same edges and wildcards however the merges are grouped.
pub proof fn lemma_extend_associative(
    a: EthereumLogFilter,
    b: EthereumLogFilter,
    c: EthereumLogFilter,
)
    ensures
        a.edge_set().union(b.edge_set()).union(c.edge_set()) == a.edge_set().union(
            b.edge_set().union(c.edge_set()),
        ),
        a.wildcard_set().union(b.wildcard_set()).union(c.wildcard_set()) == a.wildcard_set().union(
            b.wildcard_set().union(c.wildcard_set()),
        ),
{
    assert(a.edge_set().union(b.edge_set()).union(c.edge_set()) =~= a.edge_set().union(
        b.edge_set().union(c.edge_set()),
    ));
    assert(a.wildcard_set().union(b.wildcard_set()).union(c.wildcard_set())
        =~= a.wildcard_set().union(b.wildcard_set().union(c.wildcard_set())));
}

/// Merging log filters is idempotent: extending a filter with itself
/// changes neither its edges nor its wildcards.
pub proof fn lemma_extend_idempotent(a: EthereumLogFilter)
    ensures
        a.edge_set().union(a.edge_set()) == a.edge_set(),
        a.wildcard_set().union(a.wildcard_set()) == a.wildcard_set(),
{
    assert(a.edge_set().union(a.edge_set()) =~= a.edge_set());
    assert(a.wildcard_set().union(a.wildcard_set()) =~= a.wildcard_set());
}

/// Corresponds to one remote `eth_getLogs` call: match logs from any of
/// `contracts` (any address, when empty) whose first topic is any of
/// `event_signatures`.
#[derive(Clone, Debug)]
pub struct EthGetLogsFilter {
    pub contracts: Vec<Address>,
    pub event_signatures: Vec<EventSignature>,
}

impl EthGetLogsFilter {
    /// A log is matched by the window iff its first topic is one of the
    /// window's signatures and, unless the contract side is empty, its
    /// address is one of the window's contracts.
    pub open spec fn spec_matches(self, log: Log) -> bool {
        &&& log.topics@.len() > 0
        &&& self.event_signatures@.contains(log.topics@[0])
        &&& (self.contracts@.len() == 0 || self.contracts@.contains(log.address))
    }
}

/// A node of the bipartite contract/event graph.
#[derive(Clone, Copy, Debug, PartialEq, Eq, Structural)]
pub enum LogFilterNode {
    Contract(Address),
    Event(EventSignature),
}

/// Whether an edge touches a node.
pub open spec fn incident(e: (Address, EventSignature), n: LogFilterNode) -> bool {
    match n {
        LogFilterNode::Contract(a) => e.0 == a,
        LogFilterNode::Event(s) => e.1 == s,
    }
}

/// The predicate "this edge touches the node", as a function value.
pub open spec fn incident_pred(n: LogFilterNode) -> spec_fn((Address, EventSignature)) -> bool {
    |e: (Address, EventSignature)| incident(e, n)
}

/// The degree of a node in a list of edges: how many of them touch it.
pub open spec fn spec_degree(s: Seq<(Address, EventSignature)>, n: LogFilterNode) -> nat {
    s.filter(incident_pred(n)).len()
}

/// The degree of a node in a set of edges.
pub open spec fn set_degree(r: Set<(Address, EventSignature)>, n: LogFilterNode) -> nat {
    r.filter(incident_pred(n)).len()
}

/// A well-formed window for a filter: a wildcard window carries exactly one
/// signature of the filter's wildcard set and no contract; any other window
/// has a singleton side, and every contract/signature pair it can match is
/// an edge of the filter.
pub open spec fn window_ok(w: EthGetLogsFilter, f: EthereumLogFilter) -> bool {
    if w.contracts@.len() == 0 {
        &&& w.event_signatures@.len() == 1
        &&& f.wildcard_set().contains(w.event_signatures@[0])
    } else {
        &&& w.event_signatures@.len() >= 1
        &&& (w.contracts@.len() == 1 || w.event_signatures@.len() == 1)
        &&& forall|ci: int, si: int|
            0 <= ci < w.contracts@.len() && 0 <= si < w.event_signatures@.len() ==> f.edge_set().contains(
                ((#[trigger] w.contracts@[ci]), (#[trigger] w.event_signatures@[si])),
            )
    }
}

/// An edge is covered by one of the windows emitted so far.
pub open spec fn covered(ws: Seq<EthGetLogsFilter>, p: (Address, EventSignature)) -> bool {
    exists|k: int|
        0 <= k < ws.len() && (#[trigger] ws[k]).contracts@.contains(p.0)
            && ws[k].event_signatures@.contains(p.1)
}

/// A wildcard signature got its own window.
spec fn wildcard_covered(ws: Seq<EthGetLogsFilter>, e: EventSignature) -> bool {
    exists|k: int|
        0 <= k < ws.len() && (#[trigger] ws[k]).contracts@.len() == 0
            && ws[k].event_signatures@.contains(e)
}

/// The edges of the filter that no window before index `k` covers: what
/// is still left for the windows from `k` on to cover.
pub open spec fn remaining_edges(
    ws: Seq<EthGetLogsFilter>,
    k: int,
    f: EthereumLogFilter,
) -> Set<(Address, EventSignature)> {
    Set::new(
        |p: (Address, EventSignature)| f.edge_set().contains(p) && !covered(ws.take(k), p),
    )
}

/// The window is the one the greedy step builds for node `v` against the
/// remaining edges `rem`: `v` alone on its side, and the other side
/// holding exactly the remaining partners of `v`.
pub open spec fn window_of_node(
    w: EthGetLogsFilter,
    v: LogFilterNode,
    rem: Set<(Address, EventSignature)>,
) -> bool {
    match v {
        LogFilterNode::Contract(a) => {
            &&& w.contracts@.len() == 1
            &&& w.contracts@[0] == a
            &&& forall|s: EventSignature|
                (#[trigger] w.event_signatures@.contains(s)) <==> rem.contains((a, s))
        },
        LogFilterNode::Event(e) => {
            &&& w.event_signatures@.len() == 1
            &&& w.event_signatures@[0] == e
            &&& forall|c: Address| (#[trigger] w.contracts@.contains(c)) <==> rem.contains((c, e))
        },
    }
}

/// Window `k` is a greedy cover step: its singleton side is a node of
/// maximum degree among the edges the earlier windows left uncovered, and
/// it takes all of that node's remaining edges.
pub open spec fn window_is_greedy(ws: Seq<EthGetLogsFilter>, k: int, f: EthereumLogFilter) -> bool {
    exists|v: LogFilterNode|
        #[trigger] window_of_node(ws[k], v, remaining_edges(ws, k, f)) && (forall|u: LogFilterNode|
            #[trigger] set_degree(remaining_edges(ws, k, f), u) <= set_degree(
                remaining_edges(ws, k, f),
                v,
            ))
}

/// Filtering a duplicate-free sequence keeps it duplicate-free.
proof fn lemma_filter_no_dup<A>(s: Seq<A>, pred: spec_fn(A) -> bool)
    requires
        forall|i: int, j: int| 0 <= i < j < s.len() ==> s[i] != s[j],
    ensures
        forall|i: int, j: int|
            0 <= i < j < s.filter(pred).len() ==> s.filter(pred)[i] != s.filter(pred)[j],
    decreases s.len(),
{
    reveal(Seq::filter);
    if s.len() > 0 {
        let dl = s.drop_last();
        assert forall|i: int, j: int| 0 <= i < j < dl.len() implies dl[i] != dl[j] by {
            assert(s[i] != s[j]);
        }
        lemma_filter_no_dup(dl, pred);
        if pred(s.last()) {
            let fs = s.filter(pred);
            assert(fs == dl.filter(pred).push(s.last()));
            assert forall|i: int, j: int| 0 <= i < j < fs.len() implies fs[i] != fs[j] by {
                if j == fs.len() - 1 {
                    assert(fs[i] == dl.filter(pred)[i]);
                    assert(dl.filter(pred).contains(fs[i]));
                    dl.lemma_filter_contains_rev(pred, fs[i]);
                    let x = choose|x: int| 0 <= x < dl.len() && dl[x] == fs[i];
                    assert(s[x] == fs[i]);
                    assert(s[x] != s.last()) by {
                        assert(s[s.len() - 1] == s.last());
                    }
                } else {
                    assert(fs[i] == dl.filter(pred)[i] && fs[j] == dl.filter(pred)[j]);
                }
            }
        }
    }
}

/// On a duplicate-free list of edges, the degree of a node over the list
/// and over the set of its elements agree.
proof fn lemma_seq_set_degree(s: Seq<(Address, EventSignature)>, v: LogFilterNode)
    requires
        forall|i: int, j: int| 0 <= i < j < s.len() ==> s[i] != s[j],
    ensures
        set_degree(s.to_set(), v) == spec_degree(s, v),
{
    let fs = s.filter(incident_pred(v));
    lemma_filter_no_dup(s, incident_pred(v));
    fs.unique_seq_to_set();
    assert forall|p: (Address, EventSignature)|
        s.to_set().filter(incident_pred(v)).contains(p) implies fs.to_set().contains(p) by {
        let x = choose|x: int| 0 <= x < s.len() && s[x] == p;
        s.lemma_filter_contains(incident_pred(v), x);
        assert(fs.contains(p));
    }
    assert forall|p: (Address, EventSignature)|
        fs.to_set().contains(p) implies s.to_set().filter(incident_pred(v)).contains(p) by {
        let x = choose|x: int| 0 <= x < fs.len() && fs[x] == p;
        s.lemma_filter_pred(incident_pred(v), x);
        s.lemma_filter_contains_rev(incident_pred(v), p);
    }
    assert(s.to_set().filter(incident_pred(v)) =~= fs.to_set());
}

/// Removing an element that fails the predicate makes the filtered
/// sequence strictly shorter than the original.
proof fn lemma_filter_strictly_shorter<A>(s: Seq<A>, pred: spec_fn(A) -> bool, i: int)
    requires
        0 <= i < s.len(),
        !pred(s[i]),
    ensures
        s.filter(pred).len() < s.len(),
    decreases s.len(),
{
    reveal(Seq::filter);
    if i == s.len() - 1 {
        s.drop_last().lemma_filter_len(pred);
    } else {
        lemma_filter_strictly_shorter(s.drop_last(), pred, i);
    }
}

impl EthereumLogFilter {
    /// Counts the remaining edges touching `n`.
    #[verifier::loop_isolation(false)]
    fn degree_of(g: &Vec<(Address, EventSignature)>, n: LogFilterNode) -> (d: usize)
        ensures
            d == spec_degree(g@, n),
    {
        let len = g.len();
        let mut d: usize = 0;
        let mut k: usize = 0;
        proof {
            assert(g@.take(0) =~= Seq::<(Address, EventSignature)>::empty());
            reveal(Seq::filter);
        }
        while k < len
            invariant
                k <= len,
                d <= k,
                d == spec_degree(g@.take(k as int), n),
            decreases len - k,
        {
            let e = g[k];
            let hit = match n {
                LogFilterNode::Contract(a) => e.0 == a,
                LogFilterNode::Event(s) => e.1 == s,
            };
            proof {
                assert(g@.take(k + 1 as int) =~= g@.take(k as int).push(g@[k as int]));
                g@.take(k as int).lemma_filter_len_push(incident_pred(n), g@[k as int]);
            }
            if hit {
                d += 1;
            }
            k += 1;
        }
        proof {
            assert(g@.take(len as int) =~= g@);
        }
        d
    }

    /// Picks a node of maximum degree, with the index of one edge that
    /// touches it. Ties keep the earliest candidate in edge order, which
    /// makes the pick deterministic.
    #[verifier::loop_isolation(false)]
    fn pick_max_degree(g: &Vec<(Address, EventSignature)>) -> (r: (LogFilterNode, usize))
        requires
            g@.len() > 0,
        ensures
            r.1 < g@.len(),
            incident(g@[r.1 as int], r.0),
            forall|n: LogFilterNode| #[trigger] spec_degree(g@, n) <= spec_degree(g@, r.0),
    {
        let len = g.len();
        let mut best_node = LogFilterNode::Contract(g[0].0);
        let mut best_deg = Self::degree_of(g, best_node);
        let mut best_idx: usize = 0;
        let mut k: usize = 0;
        while k < len
            invariant
                k <= len,
                best_idx < g@.len(),
                incident(g@[best_idx as int], best_node),
                best_deg == spec_degree(g@, best_node),
                forall|j: int|
                    0 <= j < k ==> spec_degree(
                        g@,
                        LogFilterNode::Contract((#[trigger] g@[j]).0),
                    ) <= best_deg && spec_degree(g@, LogFilterNode::Event(g@[j].1)) <= best_deg,
            decreases len - k,
        {
            let e = g[k];
            let dc = Self::degree_of(g, LogFilterNode::Contract(e.0));
            if dc > best_deg {
                best_node = LogFilterNode::Contract(e.0);
                best_deg = dc;
                best_idx = k;
            }
            let de = Self::degree_of(g, LogFilterNode::Event(e.1));
            if de > best_deg {
                best_node = LogFilterNode::Event(e.1);
                best_deg = de;
                best_idx = k;
            }
            k += 1;
        }
        proof {
            assert forall|n: LogFilterNode| #[trigger] spec_degree(g@, n) <= spec_degree(
                g@,
                best_node,
            ) by {
                if spec_degree(g@, n) > 0 {
                    let fs = g@.filter(incident_pred(n));
                    assert(fs.contains(fs[0]));
                    g@.lemma_filter_contains_rev(incident_pred(n), fs[0]);
                    let j = choose|j: int| 0 <= j < g@.len() && (#[trigger] g@[j]) == fs[0];
                    assert(incident(g@[j], n));
                    match n {
                        LogFilterNode::Contract(a) => {
                            assert(n == LogFilterNode::Contract(g@[j].0));
                        },
                        LogFilterNode::Event(sg) => {
                            assert(n == LogFilterNode::Event(g@[j].1));
                        },
                    }
                }
            }
        }
        (best_node, best_idx)
    }

    /// Filters for `eth_getLogs` calls: one window per wildcard signature,
    /// then a greedy cover of the bipartite graph, repeatedly turning all
    /// edges of a maximum-degree node into one window. Every window keeps a
    /// singleton side, so no window matches a pair the filter does not
    /// hold, and together the windows match every log the filter matches.
    /// Each non-wildcard window is moreover a greedy step: its singleton
    /// side is a node of maximum degree among the edges the earlier
    /// windows left uncovered, and it takes all of that node's remaining
    /// edges.
    /// Nodes with identical neighbourhoods are deliberately not merged into
    /// one window: that would save calls but broaden the filter. Degree
    /// ties keep the earliest candidate in stored edge order, so the
    /// window list is a deterministic function of the stored edge and
    /// wildcard lists (insertion order included): two filters holding the
    /// same sets but built in a different order may emit the same windows
    /// in a different order. The contract pins the match sets either way.
    #[verifier::loop_isolation(false)]
    #[verifier::rlimit(80)]
    pub fn eth_get_logs_filters(self) -> (r: Vec<EthGetLogsFilter>)
        requires
            self.wf(),
        ensures
            forall|k: int| 0 <= k < r@.len() ==> window_ok(#[trigger] r@[k], self),
            forall|k: int|
                0 <= k < r@.len() ==> (#[trigger] r@[k]).contracts@.len() <= 1
                    || r@[k].event_signatures@.len() <= 1,
            forall|log: Log|
                #[trigger] self.spec_matches(log) ==> exists|k: int|
                    0 <= k < r@.len() && (#[trigger] r@[k]).spec_matches(log),
            forall|e: EventSignature|
                #[trigger] self.wildcard_set().contains(e) ==> exists|k: int|
                    0 <= k < r@.len() && (#[trigger] r@[k]).contracts@.len() == 0
                        && r@[k].event_signatures@.len() == 1 && r@[k].event_signatures@[0] == e,
            forall|k1: int, k2: int|
                0 <= k1 < k2 < r@.len() && (#[trigger] r@[k1]).contracts@.len() == 0 && (
                #[trigger] r@[k2]).contracts@.len() == 0 ==> r@[k1].event_signatures@[0]
                    != r@[k2].event_signatures@[0],
            forall|k: int|
                0 <= k < r@.len() && (#[trigger] r@[k]).contracts@.len() > 0 ==> window_is_greedy(
                    r@,
                    k,
                    self,
                ),
    {
        let ghost orig = self;
        let mut filters: Vec<EthGetLogsFilter> = Vec::new();
        let wildcards = self.wildcard_events;
        let mut g = self.contracts_and_events;

        // One window per wildcard event.
        let nw = wildcards.len();
        let mut i: usize = 0;
        while i < nw
            invariant
                i <= nw,
                wildcards@ == orig.wildcard_events@,
                filters@.len() == i,
                forall|k: int| 0 <= k < filters@.len() ==> window_ok(#[trigger] filters@[k], orig),
                forall|j: int|
                    0 <= j < i ==> wildcard_covered(filters@, (#[trigger] wildcards@[j])),
                forall|k: int|
                    0 <= k < i ==> (#[trigger] filters@[k]).contracts@.len() == 0
                        && filters@[k].event_signatures@.len() == 1
                        && filters@[k].event_signatures@[0] == wildcards@[k],
            decreases nw - i,
        {
            let w = EthGetLogsFilter { contracts: Vec::new(), event_signatures: vec![wildcards[i]] };
            let ghost pre = filters@;
            filters.push(w);
            proof {
                assert(w.event_signatures@ =~= seq![wildcards@[i as int]]);
                assert(orig.wildcard_set().contains(wildcards@[i as int]));
                assert(window_ok(w, orig));
                assert(filters@[pre.len() as int] == w);
                assert(w.event_signatures@.contains(wildcards@[i as int]));
                assert forall|k: int| 0 <= k < i implies (#[trigger] filters@[k]) == pre[k] by {}
                assert forall|j: int| 0 <= j < i + 1 implies wildcard_covered(
                    filters@,
                    (#[trigger] wildcards@[j]),
                ) by {
                    if j < i {
                        let k = choose|k: int|
                            0 <= k < pre.len() && (#[trigger] pre[k]).contracts@.len() == 0
                                && pre[k].event_signatures@.contains(wildcards@[j]);
                        assert(filters@[k] == pre[k]);
                    }
                }
            }
            i += 1;
        }

        let ghost wprefix = filters@;
        proof {
            assert forall|p: (Address, EventSignature)| g@.contains(p) implies !covered(
                filters@,
                p,
            ) by {
                if covered(filters@, p) {
                    let k = choose|k: int|
                        0 <= k < filters@.len() && (#[trigger] filters@[k]).contracts@.contains(
                            p.0,
                        ) && filters@[k].event_signatures@.contains(p.1);
                    assert(filters@[k].contracts@.len() == 0);
                }
            }
        }

        // Greedy cover of the remaining graph.
        while g.len() > 0
            invariant
                forall|p: (Address, EventSignature)|
                    g@.contains(p) ==> orig.edge_set().contains(p),
                forall|k: int| 0 <= k < filters@.len() ==> window_ok(#[trigger] filters@[k], orig),
                forall|e: EventSignature|
                    orig.wildcard_set().contains(e) ==> wildcard_covered(filters@, e),
                forall|p: (Address, EventSignature)|
                    orig.edge_set().contains(p) ==> g@.contains(p) || covered(filters@, p),
                filters@.len() >= nw,
                forall|k: int| 0 <= k < nw ==> (#[trigger] filters@[k]) == wprefix[k],
                forall|k: int|
                    0 <= k < filters@.len() && (#[trigger] filters@[k]).contracts@.len() == 0
                        ==> k < nw,
                forall|x: int, y: int| 0 <= x < y < g@.len() ==> g@[x] != g@[y],
                forall|p: (Address, EventSignature)|
                    g@.contains(p) ==> !covered(filters@, p),
                forall|k: int|
                    nw <= k < filters@.len() ==> window_is_greedy(filters@, k, orig),
            decreases g@.len(),
        {
            let (node, witness) = Self::pick_max_degree(&g);
            let ghost g0 = g@;
            let len = g.len();
            match node {
                LogFilterNode::Contract(a) => {
                    let mut events: Vec<EventSignature> = Vec::new();
                    let mut new_g: Vec<(Address, EventSignature)> = Vec::new();
                    let mut k: usize = 0;
                    proof {
                        assert(g0.take(0) =~= Seq::<(Address, EventSignature)>::empty());
                        reveal(Seq::filter);
                    }
                    while k < len
                        invariant
                            k <= len,
                            g@ == g0,
                            len == g0.len(),
                            events@ == g0.take(k as int).filter(
                                |e: (Address, EventSignature)| e.0 == a,
                            ).map_values(|e: (Address, EventSignature)| e.1),
                            new_g@ == g0.take(k as int).filter(
                                |e: (Address, EventSignature)| !(e.0 == a),
                            ),
                        decreases len - k,
                    {
                        let e = g[k];
                        proof {
                            assert(g0.take(k + 1 as int) =~= g0.take(k as int).push(g0[k as int]));
                            g0.take(k as int).lemma_filter_push(
                                g0[k as int],
                                |e: (Address, EventSignature)| e.0 == a,
                            );
                            g0.take(k as int).lemma_filter_push(
                                g0[k as int],
                                |e: (Address, EventSignature)| !(e.0 == a),
                            );
                            g0.take(k as int).filter(
                                |e: (Address, EventSignature)| e.0 == a,
                            ).lemma_push_map_commute(
                                |e: (Address, EventSignature)| e.1,
                                g0[k as int],
                            );
                        }
                        if e.0 == a {
                            events.push(e.1);
                        } else {
                            new_g.push(e);
                        }
                        k += 1;
                    }
                    proof {
                        assert(g0.take(len as int) =~= g0);
                    }
                    let w = EthGetLogsFilter { contracts: vec![a], event_signatures: events };
                    let ghost pre = filters@;
                    filters.push(w);
                    proof {
                        let epred = |e: (Address, EventSignature)| e.0 == a;
                        let fs = g0.filter(epred);
                        assert(w.contracts@ =~= seq![a]);
                        // the witness edge shows the window is not empty
                        assert(epred(g0[witness as int]));
                        g0.lemma_filter_contains(epred, witness as int);
                        assert(fs.contains(g0[witness as int]));
                        assert(w.event_signatures@.len() == fs.len());
                        assert(fs.len() > 0);
                        // every pair the window can match is an edge
                        assert forall|ci: int, si: int|
                            0 <= ci < w.contracts@.len() && 0 <= si
                                < w.event_signatures@.len() implies orig.edge_set().contains(
                            ((w.contracts@[ci]), (w.event_signatures@[si])),
                        ) by {
                            assert(w.contracts@[ci] == a);
                            assert(w.event_signatures@[si] == fs[si].1);
                            assert(fs.contains(fs[si]));
                            g0.lemma_filter_contains_rev(epred, fs[si]);
                            assert(g0.contains(fs[si]));
                            assert(epred(fs[si]));
                            assert(fs[si] =~= (a, fs[si].1));
                            assert(orig.edge_set().contains((a, fs[si].1)));
                        }
                        assert(window_ok(w, orig));
                        assert forall|kw: int| 0 <= kw < nw implies (#[trigger] filters@[kw])
                            == wprefix[kw] by {
                            assert(filters@[kw] == pre[kw]);
                        }
                        assert forall|kw: int|
                            0 <= kw < filters@.len() && (
                        #[trigger] filters@[kw]).contracts@.len() == 0 implies kw < nw by {
                            if kw < pre.len() {
                                assert(filters@[kw] == pre[kw]);
                            } else {
                                assert(filters@[kw] == w);
                            }
                        }
                        // window list facts carry over to the push
                        assert forall|k2: int| 0 <= k2 < filters@.len() implies window_ok(
                            #[trigger] filters@[k2],
                            orig,
                        ) by {
                            if k2 < pre.len() {
                                assert(filters@[k2] == pre[k2]);
                            }
                        }
                        assert forall|e: EventSignature|
                            orig.wildcard_set().contains(e) implies wildcard_covered(
                            filters@,
                            e,
                        ) by {
                            let k2 = choose|k2: int|
                                0 <= k2 < pre.len() && (#[trigger] pre[k2]).contracts@.len() == 0
                                    && pre[k2].event_signatures@.contains(e);
                            assert(filters@[k2] == pre[k2]);
                        }
                        // every edge is still in the graph or covered
                        assert forall|p: (Address, EventSignature)|
                            orig.edge_set().contains(p) implies new_g@.contains(p) || covered(
                            filters@,
                            p,
                        ) by {
                            if covered(pre, p) {
                                let k2 = choose|k2: int|
                                    0 <= k2 < pre.len() && (#[trigger] pre[k2]).contracts@.contains(
                                        p.0,
                                    ) && pre[k2].event_signatures@.contains(p.1);
                                assert(filters@[k2] == pre[k2]);
                            } else if g0.contains(p) {
                                let j = choose|j: int| 0 <= j < g0.len() && (#[trigger] g0[j]) == p;
                                if p.0 == a {
                                    g0.lemma_filter_contains(epred, j);
                                    assert(fs.contains(p));
                                    let si = choose|si: int|
                                        0 <= si < fs.len() && (#[trigger] fs[si]) == p;
                                    assert(w.event_signatures@[si] == p.1);
                                    assert(w.event_signatures@.contains(p.1));
                                    assert(w.contracts@[0] == p.0);
                                    assert(w.contracts@.contains(p.0));
                                    assert(filters@[pre.len() as int] == w);
                                    assert(covered(filters@, p));
                                } else {
                                    g0.lemma_filter_contains(
                                        |e: (Address, EventSignature)| !(e.0 == a),
                                        j,
                                    );
                                }
                            }
                        }
                        // the graph shrank: the witness edge left it
                        lemma_filter_strictly_shorter(
                            g0,
                            |e: (Address, EventSignature)| !(e.0 == a),
                            witness as int,
                        );
                        // edges kept are still edges
                        assert forall|p: (Address, EventSignature)|
                            new_g@.contains(p) implies orig.edge_set().contains(p) by {
                            g0.lemma_filter_contains_rev(
                                |e: (Address, EventSignature)| !(e.0 == a),
                                p,
                            );
                        }

                        // greedy bookkeeping: the remaining edges are this loop's graph
                        let kk = pre.len() as int;
                        assert(filters@.take(kk) =~= pre);
                        let rem = remaining_edges(filters@, kk, orig);
                        assert forall|p: (Address, EventSignature)| rem.contains(p) implies g0.to_set().contains(p) by {
                            assert(orig.edge_set().contains(p) && !covered(pre, p));
                        }
                        assert forall|p: (Address, EventSignature)| g0.to_set().contains(p) implies rem.contains(p) by {
                            assert(g0.contains(p));
                        }
                        assert(rem =~= g0.to_set());
                        // the window holds exactly the node's remaining partners
                        assert forall|s2: EventSignature| (#[trigger] w.event_signatures@.contains(s2)) implies rem.contains((a, s2)) by {
                            let si2 = choose|si2: int| 0 <= si2 < w.event_signatures@.len() && w.event_signatures@[si2] == s2;
                            assert(w.event_signatures@[si2] == fs[si2].1);
                            assert(fs.contains(fs[si2]));
                            g0.lemma_filter_contains_rev(epred, fs[si2]);
                            g0.lemma_filter_pred(epred, si2);
                            assert(fs[si2] =~= (a, s2));
                            assert(g0.contains((a, s2)));
                        }
                        assert forall|s2: EventSignature| rem.contains((a, s2)) implies w.event_signatures@.contains(s2) by {
                            let x2 = choose|x2: int| 0 <= x2 < g0.len() && g0[x2] == (a, s2);
                            g0.lemma_filter_contains(epred, x2);
                            let si2 = choose|si2: int| 0 <= si2 < fs.len() && fs[si2] == (a, s2);
                            assert(w.event_signatures@[si2] == s2);
                        }
                        assert(window_of_node(w, node, rem));
                        // and its node has maximum remaining degree
                        assert forall|u: LogFilterNode| #[trigger] set_degree(rem, u) <= set_degree(rem, node) by {
                            lemma_seq_set_degree(g0, u);
                            lemma_seq_set_degree(g0, node);
                        }
                        assert(filters@[kk] == w);
                        assert forall|k2: int| nw <= k2 < filters@.len() implies window_is_greedy(filters@, k2, orig) by {
                            if k2 < kk {
                                assert(filters@.take(k2) =~= pre.take(k2));
                                assert(window_is_greedy(pre, k2, orig));
                                let v2 = choose|v2: LogFilterNode| #[trigger] window_of_node(pre[k2], v2, remaining_edges(pre, k2, orig)) && (forall|u: LogFilterNode| #[trigger] set_degree(remaining_edges(pre, k2, orig), u) <= set_degree(remaining_edges(pre, k2, orig), v2));
                                assert(remaining_edges(filters@, k2, orig) =~= remaining_edges(pre, k2, orig));
                                assert(filters@[k2] == pre[k2]);
                                assert(window_of_node(filters@[k2], v2, remaining_edges(filters@, k2, orig)));
                                assert forall|u: LogFilterNode| #[trigger] set_degree(remaining_edges(filters@, k2, orig), u) <= set_degree(remaining_edges(filters@, k2, orig), v2) by {
                                    assert(set_degree(remaining_edges(pre, k2, orig), u) <= set_degree(remaining_edges(pre, k2, orig), v2));
                                }
                            } else {
                                assert(window_of_node(filters@[kk], node, remaining_edges(filters@, kk, orig)));
                            }
                        }
                        // the kept edges are uncovered by every window so far
                        assert forall|p: (Address, EventSignature)| new_g@.contains(p) implies !covered(filters@, p) by {
                            let x2 = choose|x2: int| 0 <= x2 < new_g@.len() && new_g@[x2] == p;
                            g0.lemma_filter_pred(|e: (Address, EventSignature)| !(e.0 == a), x2);
                            g0.lemma_filter_contains_rev(|e: (Address, EventSignature)| !(e.0 == a), p);
                            if covered(filters@, p) {
                                let k2 = choose|k2: int| 0 <= k2 < filters@.len() && (#[trigger] filters@[k2]).contracts@.contains(p.0) && filters@[k2].event_signatures@.contains(p.1);
                                if k2 < kk {
                                    assert(covered(pre, p)) by {
                                        assert((#[trigger] pre[k2]).contracts@.contains(p.0) && pre[k2].event_signatures@.contains(p.1));
                                    }
                                } else {
                                    assert(filters@[k2] == w);
                                    let ci2 = choose|ci2: int| 0 <= ci2 < w.contracts@.len() && w.contracts@[ci2] == p.0;
                                    assert(p.0 == a);
                                }
                            }
                        }
                        // and stay duplicate-free
                        lemma_filter_no_dup(g0, |e: (Address, EventSignature)| !(e.0 == a));
                    }
                    g = new_g;
                },
                LogFilterNode::Event(sg) => {
                    let mut contracts: Vec<Address> = Vec::new();
                    let mut new_g: Vec<(Address, EventSignature)> = Vec::new();
                    let mut k: usize = 0;
                    proof {
                        assert(g0.take(0) =~= Seq::<(Address, EventSignature)>::empty());
                        reveal(Seq::filter);
                    }
                    while k < len
                        invariant
                            k <= len,
                            g@ == g0,
                            len == g0.len(),
                            contracts@ == g0.take(k as int).filter(
                                |e: (Address, EventSignature)| e.1 == sg,
                            ).map_values(|e: (Address, EventSignature)| e.0),
                            new_g@ == g0.take(k as int).filter(
                                |e: (Address, EventSignature)| !(e.1 == sg),
                            ),
                        decreases len - k,
                    {
                        let e = g[k];
                        proof {
                            assert(g0.take(k + 1 as int) =~= g0.take(k as int).push(g0[k as int]));
                            g0.take(k as int).lemma_filter_push(
                                g0[k as int],
                                |e: (Address, EventSignature)| e.1 == sg,
                            );
                            g0.take(k as int).lemma_filter_push(
                                g0[k as int],
                                |e: (Address, EventSignature)| !(e.1 == sg),
                            );
                            g0.take(k as int).filter(
                                |e: (Address, EventSignature)| e.1 == sg,
                            ).lemma_push_map_commute(
                                |e: (Address, EventSignature)| e.0,
                                g0[k as int],
                            );
                        }
                        if e.1 == sg {
                            contracts.push(e.0);
                        } else {
                            new_g.push(e);
                        }
                        k += 1;
                    }
                    proof {
                        assert(g0.take(len as int) =~= g0);
                    }
                    let w = EthGetLogsFilter { contracts, event_signatures: vec![sg] };
                    let ghost pre = filters@;
                    filters.push(w);
                    proof {
                        let epred = |e: (Address, EventSignature)| e.1 == sg;
                        let fs = g0.filter(epred);
                        assert(w.event_signatures@ =~= seq![sg]);
                        assert(epred(g0[witness as int]));
                        g0.lemma_filter_contains(epred, witness as int);
                        assert(fs.contains(g0[witness as int]));
                        assert(w.contracts@.len() == fs.len());
                        assert(fs.len() > 0);
                        assert forall|ci: int, si: int|
                            0 <= ci < w.contracts@.len() && 0 <= si
                                < w.event_signatures@.len() implies orig.edge_set().contains(
                            ((w.contracts@[ci]), (w.event_signatures@[si])),
                        ) by {
                            assert(w.event_signatures@[si] == sg);
                            assert(w.contracts@[ci] == fs[ci].0);
                            assert(fs.contains(fs[ci]));
                            g0.lemma_filter_contains_rev(epred, fs[ci]);
                            assert(g0.contains(fs[ci]));
                            assert(epred(fs[ci]));
                            assert(fs[ci] =~= (fs[ci].0, sg));
                            assert(orig.edge_set().contains((fs[ci].0, sg)));
                        }
                        assert(window_ok(w, orig));
                        assert forall|kw: int| 0 <= kw < nw implies (#[trigger] filters@[kw])
                            == wprefix[kw] by {
                            assert(filters@[kw] == pre[kw]);
                        }
                        assert forall|kw: int|
                            0 <= kw < filters@.len() && (
                        #[trigger] filters@[kw]).contracts@.len() == 0 implies kw < nw by {
                            if kw < pre.len() {
                                assert(filters@[kw] == pre[kw]);
                            } else {
                                assert(filters@[kw] == w);
                            }
                        }
                        assert forall|k2: int| 0 <= k2 < filters@.len() implies window_ok(
                            #[trigger] filters@[k2],
                            orig,
                        ) by {
                            if k2 < pre.len() {
                                assert(filters@[k2] == pre[k2]);
                            }
                        }
                        assert forall|e: EventSignature|
                            orig.wildcard_set().contains(e) implies wildcard_covered(
                            filters@,
                            e,
                        ) by {
                            let k2 = choose|k2: int|
                                0 <= k2 < pre.len() && (#[trigger] pre[k2]).contracts@.len() == 0
                                    && pre[k2].event_signatures@.contains(e);
                            assert(filters@[k2] == pre[k2]);
                        }
                        assert forall|p: (Address, EventSignature)|
                            orig.edge_set().contains(p) implies new_g@.contains(p) || covered(
                            filters@,
                            p,
                        ) by {
                            if covered(pre, p) {
                                let k2 = choose|k2: int|
                                    0 <= k2 < pre.len() && (#[trigger] pre[k2]).contracts@.contains(
                                        p.0,
                                    ) && pre[k2].event_signatures@.contains(p.1);
                                assert(filters@[k2] == pre[k2]);
                            } else if g0.contains(p) {
                                let j = choose|j: int| 0 <= j < g0.len() && (#[trigger] g0[j]) == p;
                                if p.1 == sg {
                                    g0.lemma_filter_contains(epred, j);
                                    assert(fs.contains(p));
                                    let ci = choose|ci: int|
                                        0 <= ci < fs.len() && (#[trigger] fs[ci]) == p;
                                    assert(w.contracts@[ci] == p.0);
                                    assert(w.contracts@.contains(p.0));
                                    assert(w.event_signatures@[0] == p.1);
                                    assert(w.event_signatures@.contains(p.1));
                                    assert(filters@[pre.len() as int] == w);
                                    assert(covered(filters@, p));
                                } else {
                                    g0.lemma_filter_contains(
                                        |e: (Address, EventSignature)| !(e.1 == sg),
                                        j,
                                    );
                                }
                            }
                        }
                        lemma_filter_strictly_shorter(
                            g0,
                            |e: (Address, EventSignature)| !(e.1 == sg),
                            witness as int,
                        );
                        assert forall|p: (Address, EventSignature)|
                            new_g@.contains(p) implies orig.edge_set().contains(p) by {
                            g0.lemma_filter_contains_rev(
                                |e: (Address, EventSignature)| !(e.1 == sg),
                                p,
                            );
                        }

                        // greedy bookkeeping: the remaining edges are this loop's graph
                        let kk = pre.len() as int;
                        assert(filters@.take(kk) =~= pre);
                        let rem = remaining_edges(filters@, kk, orig);
                        assert forall|p: (Address, EventSignature)| rem.contains(p) implies g0.to_set().contains(p) by {
                            assert(orig.edge_set().contains(p) && !covered(pre, p));
                        }
                        assert forall|p: (Address, EventSignature)| g0.to_set().contains(p) implies rem.contains(p) by {
                            assert(g0.contains(p));
                        }
                        assert(rem =~= g0.to_set());
                        // the window holds exactly the node's remaining partners
                        assert forall|s2: Address| (#[trigger] w.contracts@.contains(s2)) implies rem.contains((s2, sg)) by {
                            let si2 = choose|si2: int| 0 <= si2 < w.contracts@.len() && w.contracts@[si2] == s2;
                            assert(w.contracts@[si2] == fs[si2].0);
                            assert(fs.contains(fs[si2]));
                            g0.lemma_filter_contains_rev(epred, fs[si2]);
                            g0.lemma_filter_pred(epred, si2);
                            assert(fs[si2] =~= (s2, sg));
                            assert(g0.contains((s2, sg)));
                        }
                        assert forall|s2: Address| rem.contains((s2, sg)) implies w.contracts@.contains(s2) by {
                            let x2 = choose|x2: int| 0 <= x2 < g0.len() && g0[x2] == (s2, sg);
                            g0.lemma_filter_contains(epred, x2);
                            let si2 = choose|si2: int| 0 <= si2 < fs.len() && fs[si2] == (s2, sg);
                            assert(w.contracts@[si2] == s2);
                        }
                        assert(window_of_node(w, node, rem));
                        // and its node has maximum remaining degree
                        assert forall|u: LogFilterNode| #[trigger] set_degree(rem, u) <= set_degree(rem, node) by {
                            lemma_seq_set_degree(g0, u);
                            lemma_seq_set_degree(g0, node);
                        }
                        assert(filters@[kk] == w);
                        assert forall|k2: int| nw <= k2 < filters@.len() implies window_is_greedy(filters@, k2, orig) by {
                            if k2 < kk {
                                assert(filters@.take(k2) =~= pre.take(k2));
                                assert(window_is_greedy(pre, k2, orig));
                                let v2 = choose|v2: LogFilterNode| #[trigger] window_of_node(pre[k2], v2, remaining_edges(pre, k2, orig)) && (forall|u: LogFilterNode| #[trigger] set_degree(remaining_edges(pre, k2, orig), u) <= set_degree(remaining_edges(pre, k2, orig), v2));
                                assert(remaining_edges(filters@, k2, orig) =~= remaining_edges(pre, k2, orig));
                                assert(filters@[k2] == pre[k2]);
                                assert(window_of_node(filters@[k2], v2, remaining_edges(filters@, k2, orig)));
                                assert forall|u: LogFilterNode| #[trigger] set_degree(remaining_edges(filters@, k2, orig), u) <= set_degree(remaining_edges(filters@, k2, orig), v2) by {
                                    assert(set_degree(remaining_edges(pre, k2, orig), u) <= set_degree(remaining_edges(pre, k2, orig), v2));
                                }
                            } else {
                                assert(window_of_node(filters@[kk], node, remaining_edges(filters@, kk, orig)));
                            }
                        }
                        // the kept edges are uncovered by every window so far
                        assert forall|p: (Address, EventSignature)| new_g@.contains(p) implies !covered(filters@, p) by {
                            let x2 = choose|x2: int| 0 <= x2 < new_g@.len() && new_g@[x2] == p;
                            g0.lemma_filter_pred(|e: (Address, EventSignature)| !(e.1 == sg), x2);
                            g0.lemma_filter_contains_rev(|e: (Address, EventSignature)| !(e.1 == sg), p);
                            if covered(filters@, p) {
                                let k2 = choose|k2: int| 0 <= k2 < filters@.len() && (#[trigger] filters@[k2]).contracts@.contains(p.0) && filters@[k2].event_signatures@.contains(p.1);
                                if k2 < kk {
                                    assert(covered(pre, p)) by {
                                        assert((#[trigger] pre[k2]).contracts@.contains(p.0) && pre[k2].event_signatures@.contains(p.1));
                                    }
                                } else {
                                    assert(filters@[k2] == w);
                                    let ci2 = choose|ci2: int| 0 <= ci2 < w.event_signatures@.len() && w.event_signatures@[ci2] == p.1;
                                    assert(p.1 == sg);
                                }
                            }
                        }
                        // and stay duplicate-free
                        lemma_filter_no_dup(g0, |e: (Address, EventSignature)| !(e.1 == sg));
                    }
                    g = new_g;
                },
            }
        }
        proof {
            assert forall|log: Log| #[trigger] orig.spec_matches(log) implies exists|k: int|
                0 <= k < filters@.len() && (#[trigger] filters@[k]).spec_matches(log) by {
                let sig = log.topics@[0];
                if orig.edge_set().contains((log.address, sig)) {
                    assert(covered(filters@, (log.address, sig)));
                    let k = choose|k: int|
                        0 <= k < filters@.len() && (#[trigger] filters@[k]).contracts@.contains(
                            log.address,
                        ) && filters@[k].event_signatures@.contains(sig);
                    assert(filters@[k].spec_matches(log));
                } else {
                    let k = choose|k: int|
                        0 <= k < filters@.len() && (#[trigger] filters@[k]).contracts@.len() == 0
                            && filters@[k].event_signatures@.contains(sig);
                    assert(filters@[k].spec_matches(log));
                }
            }
            assert forall|e: EventSignature|
                #[trigger] orig.wildcard_set().contains(e) implies exists|k: int|
                0 <= k < filters@.len() && (#[trigger] filters@[k]).contracts@.len() == 0
                    && filters@[k].event_signatures@.len() == 1 && filters@[k].event_signatures@[0]
                    == e by {
                let j = choose|j: int| 0 <= j < wildcards@.len() && wildcards@[j] == e;
                assert(filters@[j] == wprefix[j]);
                assert((#[trigger] filters@[j]).contracts@.len() == 0
                    && filters@[j].event_signatures@.len() == 1 && filters@[j].event_signatures@[0]
                    == e);
            }
            assert forall|k1: int, k2: int|
                0 <= k1 < k2 < filters@.len() && (#[trigger] filters@[k1]).contracts@.len() == 0
                    && (#[trigger] filters@[k2]).contracts@.len() == 0 implies filters@[k1].event_signatures@[0]
                != filters@[k2].event_signatures@[0] by {
                assert(k1 < nw && k2 < nw);
                assert(filters@[k1] == wprefix[k1] && filters@[k2] == wprefix[k2]);
                assert(wprefix[k1].event_signatures@[0] == wildcards@[k1]);
                assert(wprefix[k2].event_signatures@[0] == wildcards@[k2]);
                assert(wildcards@[k1] != wildcards@[k2]);
            }
            assert forall|k: int|
                0 <= k < filters@.len() && (#[trigger] filters@[k]).contracts@.len()
                    > 0 implies window_is_greedy(filters@, k, orig) by {
                if k < nw {
                    assert(filters@[k] == wprefix[k]);
                }
            }
        }
        filters
    }
}

/// Precision of the planner: a log matched by a well-formed window is
/// matched by the filter itself, so the emitted windows match exactly the
/// filter's match set.
pub proof fn lemma_window_precise(w: EthGetLogsFilter, f: EthereumLogFilter, log: Log)
    requires
        window_ok(w, f),
        w.spec_matches(log),
    ensures
        f.spec_matches(log),
{
    let sig = log.topics@[0];
    if w.contracts@.len() == 0 {
        assert(w.event_signatures@[0] == sig);
    } else {
        let ci = choose|ci: int| 0 <= ci < w.contracts@.len() && (#[trigger] w.contracts@[ci]) == log.address;
        let si = choose|si: int|
            0 <= si < w.event_signatures@.len() && (#[trigger] w.event_signatures@[si]) == sig;
        assert(f.edge_set().contains((w.contracts@[ci], w.event_signatures@[si])));
    }
}


} // verus!

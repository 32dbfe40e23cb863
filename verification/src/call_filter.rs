use vstd::prelude::*;

use crate::block_filter::{min64, EthereumBlockFilter};
use crate::keccak::{function_selector, spec_function_selector};
use crate::types::{Address, DataSource, EthereumCall, FunctionSelector};

verus! {

/// One stored interest: an address with its start block and the selectors
/// of the watched functions.
pub type CallFilterEntry = (Address, (u64, Vec<FunctionSelector>));

/// Each key occurs in at most one entry of the association list.
pub open spec fn keys_unique<V>(s: Seq<(Address, V)>) -> bool {
    forall|i: int, j: int| 0 <= i < j < s.len() ==> (#[trigger] s[i]).0 != (#[trigger] s[j]).0
}

/// Association-list lookup by address key.
pub closed spec fn kv_lookup<V>(s: Seq<(Address, V)>, a: Address) -> Option<V> {
    if exists|i: int| 0 <= i < s.len() && (#[trigger] s[i]).0 == a {
        let i = choose|i: int| 0 <= i < s.len() && (#[trigger] s[i]).0 == a;
        Some(s[i].1)
    } else {
        None
    }
}

/// In a duplicate-free list, the entry at an index is what lookup by its
/// key finds.
pub proof fn lemma_kv_lookup_at<V>(s: Seq<(Address, V)>, j: int)
    requires
        keys_unique(s),
        0 <= j < s.len(),
    ensures
        kv_lookup(s, s[j].0) == Some(s[j].1),
{
    let a = s[j].0;
    assert((#[trigger] s[j]).0 == a);
    let i = choose|i: int| 0 <= i < s.len() && (#[trigger] s[i]).0 == a;
    if i != j {
        assert(false);
    }
}

/// A key on no entry has no lookup result.
pub proof fn lemma_kv_lookup_none<V>(s: Seq<(Address, V)>, a: Address)
    requires
        forall|i: int| 0 <= i < s.len() ==> (#[trigger] s[i]).0 != a,
    ensures
        kv_lookup(s, a) is None,
{
}

/// Two duplicate-free lists that agree on every entry holding a key give
/// that key the same lookup result.
pub proof fn lemma_kv_lookup_same<V>(s1: Seq<(Address, V)>, s2: Seq<(Address, V)>, b: Address)
    requires
        keys_unique(s1),
        forall|i: int|
            0 <= i < s1.len() && (#[trigger] s1[i]).0 == b ==> i < s2.len() && s2[i] == s1[i],
        forall|i: int|
            0 <= i < s2.len() && (#[trigger] s2[i]).0 == b ==> i < s1.len() && s2[i] == s1[i],
    ensures
        kv_lookup(s2, b) == kv_lookup(s1, b),
{
    if exists|i: int| 0 <= i < s1.len() && (#[trigger] s1[i]).0 == b {
        let i = choose|i: int| 0 <= i < s1.len() && (#[trigger] s1[i]).0 == b;
        assert(s2[i] == s1[i]);
        assert((#[trigger] s2[i]).0 == b);
        let j = choose|j: int| 0 <= j < s2.len() && (#[trigger] s2[j]).0 == b;
        assert(s2[j] == s1[j]);
        if i != j {
            assert(false);
        }
    } else {
        assert forall|j: int| 0 <= j < s2.len() implies (#[trigger] s2[j]).0 != b by {
            if s2[j].0 == b {
                assert(s2[j] == s1[j]);
            }
        }
        lemma_kv_lookup_none(s2, b);
    }
}

/// Each selector is stored at most once.
pub open spec fn selectors_unique(s: Seq<FunctionSelector>) -> bool {
    forall|i: int, j: int| 0 <= i < j < s.len() ==> s[i] != s[j]
}

/// The selector read from the first four bytes of call input data.
pub open spec fn input_selector(input: Seq<u8>) -> FunctionSelector
    recommends
        input.len() >= 4,
{
    FunctionSelector { b0: input[0], b1: input[1], b2: input[2], b3: input[3] }
}

/// Interest in contract calls: a map from contract address to the start
/// block it is watched from and the set of function selectors of interest.
/// An empty selector set means any call to the address matches.
#[derive(Clone, Debug)]
pub struct EthereumCallFilter {
    /// One entry per watched address, each with start block and selectors.
    pub contract_addresses_function_signatures: Vec<CallFilterEntry>,
}

impl EthereumCallFilter {
    /// The stored entries.
    pub open spec fn spec_entries(self) -> Seq<CallFilterEntry> {
        self.contract_addresses_function_signatures@
    }

    /// Addresses unique, and the selectors of each entry stored once.
    pub open spec fn wf(self) -> bool {
        &&& keys_unique(self.spec_entries())
        &&& forall|i: int|
            0 <= i < self.spec_entries().len() ==> selectors_unique(
                (#[trigger] self.spec_entries()[i]).1.1@,
            )
    }

    /// What the filter holds for an address: the start block it is watched
    /// from and the set of watched selectors.
    pub open spec fn spec_get(self, a: Address) -> Option<(u64, Set<FunctionSelector>)> {
        match kv_lookup(self.spec_entries(), a) {
            Some(e) => Some((e.0, e.1@.to_set())),
            None => None,
        }
    }

    /// A call is of interest iff its target address is watched and either
    /// any call to it matches (no selector given) or the call's input
    /// starts with one of the watched selectors.
    pub open spec fn spec_matches(self, call: EthereumCall) -> bool {
        match self.spec_get(call.to) {
            None => false,
            Some((_sb, sels)) => sels == Set::<FunctionSelector>::empty() || (call.input@.len() >= 4
                && sels.contains(input_selector(call.input@))),
        }
    }

    /// Check if this filter matches the specified call.
    #[verifier::loop_isolation(false)]
    pub fn matches(&self, call: &EthereumCall) -> (r: bool)
        requires
            self.wf(),
        ensures
            r == self.spec_matches(*call),
    {
        let entries = &self.contract_addresses_function_signatures;
        let n = entries.len();
        let mut k: usize = 0;
        while k < n
            invariant
                k <= n,
                forall|j: int| 0 <= j < k ==> (#[trigger] entries@[j]).0 != call.to,
            decreases n - k,
        {
            if entries[k].0 == call.to {
                proof {
                    lemma_kv_lookup_at(entries@, k as int);
                }
                let sels = &entries[k].1.1;
                let m = sels.len();
                if m == 0 {
                    proof {
                        assert(sels@.to_set() =~= Set::<FunctionSelector>::empty());
                    }
                    return true;
                }
                proof {
                    assert(sels@.to_set().contains(sels@[0]));
                    assert(sels@.to_set() != Set::<FunctionSelector>::empty());
                }
                if call.input.len() < 4 {
                    return false;
                }
                let sel = FunctionSelector {
                    b0: call.input[0],
                    b1: call.input[1],
                    b2: call.input[2],
                    b3: call.input[3],
                };
                proof {
                    assert(sel == input_selector(call.input@));
                }
                let mut l: usize = 0;
                while l < m
                    invariant
                        l <= m,
                        m == sels@.len(),
                        forall|x: int| 0 <= x < l ==> sels@[x] != sel,
                    decreases m - l,
                {
                    if sels[l] == sel {
                        proof {
                            assert(sels@[l as int] == sel);
                        }
                        return true;
                    }
                    l += 1;
                }
                return false;
            }
            k += 1;
        }
        proof {
            lemma_kv_lookup_none(entries@, call.to);
        }
        false
    }

    /// Merges one (start block, address, selector) interest in, keeping the
    /// smaller start block and the union of selectors.
    #[verifier::loop_isolation(false)]
    fn add_triple(&mut self, sb: u64, a: Address, sel: FunctionSelector)
        requires
            old(self).wf(),
        ensures
            final(self).wf(),
            final(self).spec_get(a) == (match old(self).spec_get(a) {
                Some((sb0, sels0)) => Some((min64(sb0, sb), sels0.insert(sel))),
                None => Some((sb, Set::<FunctionSelector>::empty().insert(sel))),
            }),
            forall|b: Address| b != a ==> #[trigger] final(self).spec_get(b) == old(self).spec_get(
                b,
            ),
    {
        let n = self.contract_addresses_function_signatures.len();
        let mut k: usize = 0;
        while k < n
            invariant
                k <= n,
                n == self.contract_addresses_function_signatures@.len(),
                self == old(self),
                forall|j: int|
                    0 <= j < k ==> (#[trigger] self.contract_addresses_function_signatures@[j]).0
                        != a,
            decreases n - k,
        {
            if self.contract_addresses_function_signatures[k].0 == a {
                let ghost s1 = self.contract_addresses_function_signatures@;
                let entry = self.contract_addresses_function_signatures.remove(k);
                let (_, (sb0, mut sels)) = entry;
                let new_sb = if sb0 <= sb {
                    sb0
                } else {
                    sb
                };
                let ghost sels0 = sels@;
                let mut found = false;
                let m = sels.len();
                let mut l: usize = 0;
                while l < m
                    invariant
                        l <= m,
                        sels@ == sels0,
                        m == sels0.len(),
                        found == exists|x: int| 0 <= x < l && sels0[x] == sel,
                    decreases m - l,
                {
                    if sels[l] == sel {
                        found = true;
                        proof {
                            assert(sels0[l as int] == sel);
                        }
                    }
                    l += 1;
                }
                if !found {
                    sels.push(sel);
                }
                proof {
                    if found {
                        let x = choose|x: int| 0 <= x < sels0.len() && sels0[x] == sel;
                        assert(sels0.to_set().contains(sel));
                        assert(sels@.to_set() =~= sels0.to_set().insert(sel));
                    } else {
                        sels0.lemma_push_to_set_commute(sel);
                        assert forall|i: int, j: int| 0 <= i < j < sels@.len() implies sels@[i]
                            != sels@[j] by {
                            assert(selectors_unique(sels0));
                            if j == sels0.len() {
                                assert(sels@[i] == sels0[i]);
                            }
                        }
                    }
                }
                self.contract_addresses_function_signatures.insert(k, (a, (new_sb, sels)));
                proof {
                    let s2 = self.contract_addresses_function_signatures@;
                    assert forall|m2: int| 0 <= m2 < s2.len() && m2 != k implies s2[m2]
                        == s1[m2] by {}
                    assert(s2[k as int] == (a, (new_sb, sels)));
                    assert(keys_unique(s2)) by {
                        assert forall|i: int, j: int|
                            0 <= i < j < s2.len() implies (#[trigger] s2[i]).0 != (
                        #[trigger] s2[j]).0 by {
                            assert(s1[i].0 != s1[j].0);
                            if i != k && j != k {
                                assert(s2[i] == s1[i] && s2[j] == s1[j]);
                            } else if i == k {
                                assert(s2[j] == s1[j] && s1[j].0 != a);
                            } else {
                                assert(s2[i] == s1[i] && s1[i].0 != a);
                            }
                        }
                    }
                    lemma_kv_lookup_at(s1, k as int);
                    lemma_kv_lookup_at(s2, k as int);
                    assert forall|b: Address| b != a implies #[trigger] kv_lookup(s2, b)
                        == kv_lookup(s1, b) by {
                        assert forall|i: int|
                            0 <= i < s1.len() && (#[trigger] s1[i]).0 == b implies i < s2.len()
                            && s2[i] == s1[i] by {}
                        assert forall|i: int|
                            0 <= i < s2.len() && (#[trigger] s2[i]).0 == b implies i < s1.len()
                            && s2[i] == s1[i] by {}
                        lemma_kv_lookup_same(s1, s2, b);
                    }
                }
                return ;
            }
            k += 1;
        }
        let ghost s1 = self.contract_addresses_function_signatures@;
        let mut sels: Vec<FunctionSelector> = Vec::new();
        sels.push(sel);
        self.contract_addresses_function_signatures.push((a, (sb, sels)));
        proof {
            let s2 = self.contract_addresses_function_signatures@;
            assert(sels@.len() == 1 && sels@[0] == sel);
            assert forall|x: FunctionSelector| sels@.to_set().contains(x) implies x == sel by {
                let i2 = choose|i2: int| 0 <= i2 < sels@.len() && sels@[i2] == x;
            }
            assert(sels@.to_set().contains(sel)) by {
                assert(sels@[0] == sel);
            }
            assert(sels@.to_set() =~= Set::<FunctionSelector>::empty().insert(sel));
            assert(keys_unique(s2)) by {
                assert forall|i: int, j: int|
                    0 <= i < j < s2.len() implies (#[trigger] s2[i]).0 != (#[trigger] s2[j]).0 by {
                    if j == s1.len() {
                        assert(s2[i] == s1[i]);
                    } else {
                        assert(s2[i] == s1[i] && s2[j] == s1[j]);
                    }
                }
            }
            assert forall|i: int|
                0 <= i < s2.len() implies selectors_unique((#[trigger] s2[i]).1.1@) by {
                if i < s1.len() {
                    assert(s2[i] == s1[i]);
                }
            }
            lemma_kv_lookup_none(s1, a);
            assert(s2[s1.len() as int] == (a, (sb, sels)));
            lemma_kv_lookup_at(s2, s1.len() as int);
            assert forall|b: Address| b != a implies #[trigger] kv_lookup(s2, b) == kv_lookup(
                s1,
                b,
            ) by {
                assert forall|i: int|
                    0 <= i < s1.len() && (#[trigger] s1[i]).0 == b implies i < s2.len() && s2[i]
                    == s1[i] by {}
                assert forall|i: int|
                    0 <= i < s2.len() && (#[trigger] s2[i]).0 == b implies i < s1.len() && s2[i]
                    == s1[i] by {
                    if i == s1.len() {
                        assert(s2[i].0 == a);
                    }
                }
                lemma_kv_lookup_same(s1, s2, b);
            }
        }
    }

    /// Builds a call filter from (start block, address, selector) triples,
    /// as an iterator collect would: per address the smallest start block
    /// and the union of the selectors.
    #[verifier::loop_isolation(false)]
    pub fn from_entries(entries: Vec<(u64, Address, FunctionSelector)>) -> (r: Self)
        ensures
            r.wf(),
            forall|a: Address| #[trigger] r.spec_get(a) == triples_get(entries@, a),
    {
        let mut this = EthereumCallFilter { contract_addresses_function_signatures: Vec::new() };
        let n = entries.len();
        let mut i: usize = 0;
        proof {
            assert(entries@.take(0) =~= Seq::<(u64, Address, FunctionSelector)>::empty());
            assert forall|a: Address| #[trigger] this.spec_get(a) == triples_get(
                entries@.take(0),
                a,
            ) by {
                lemma_kv_lookup_none(this.contract_addresses_function_signatures@, a);
            }
        }
        while i < n
            invariant
                i <= n,
                this.wf(),
                forall|a: Address| #[trigger] this.spec_get(a) == triples_get(
                    entries@.take(i as int),
                    a,
                ),
            decreases n - i,
        {
            let t = entries[i];
            proof {
                assert(entries@.take(i + 1 as int).drop_last() =~= entries@.take(i as int));
                assert(entries@.take(i + 1 as int).last() == entries@[i as int]);
            }
            this.add_triple(t.0, t.1, t.2);
            i += 1;
        }
        proof {
            assert(entries@.take(n as int) =~= entries@);
        }
        this
    }

    /// Builds the call filter declared by a list of data sources: for each
    /// data source that names an address, the selectors of its declared
    /// call handlers, watched from its start block.
    #[verifier::loop_isolation(false)]
    pub fn from_data_sources(sources: &Vec<DataSource>) -> (r: Self)
        ensures
            r.wf(),
            forall|a: Address| #[trigger] r.spec_get(a) == sources_call_get(sources@, a),
    {
        let mut this = EthereumCallFilter { contract_addresses_function_signatures: Vec::new() };
        let n = sources.len();
        let mut i: usize = 0;
        proof {
            assert(sources@.take(0) =~= Seq::<DataSource>::empty());
            assert forall|a: Address| #[trigger] this.spec_get(a) == sources_call_get(
                sources@.take(0),
                a,
            ) by {
                lemma_kv_lookup_none(this.contract_addresses_function_signatures@, a);
            }
        }
        while i < n
            invariant
                i <= n,
                this.wf(),
                forall|a: Address| #[trigger] this.spec_get(a) == sources_call_get(
                    sources@.take(i as int),
                    a,
                ),
            decreases n - i,
        {
            let ds = &sources[i];
            let ghost pre = this;
            proof {
                assert(sources@.take(i + 1 as int).drop_last() =~= sources@.take(i as int));
                assert(sources@.take(i + 1 as int).last() == sources@[i as int]);
            }
            match &ds.source.address {
                Some(address) => {
                    let a = *address;
                    let sb = ds.source.start_block;
                    let handlers = &ds.mapping.call_handlers;
                    let m = handlers.len();
                    let mut j: usize = 0;
                    while j < m
                        invariant
                            j <= m,
                            m == handlers@.len(),
                            handlers@ == sources@[i as int].mapping.call_handlers@,
                            a == sources@[i as int].source.address->0,
                            sources@[i as int].source.address is Some,
                            sb == sources@[i as int].source.start_block,
                            this.wf(),
                            forall|b: Address|
                                b != a ==> #[trigger] this.spec_get(b) == pre.spec_get(b),
                            j == 0 ==> this.spec_get(a) == pre.spec_get(a),
                            j > 0 ==> this.spec_get(a) == (match pre.spec_get(a) {
                                Some((sb0, sels0)) => Some(
                                    (min64(sb0, sb), sels0.union(
                                        ds_partial_selectors(sources@[i as int], j as int),
                                    )),
                                ),
                                None => Some(
                                    (sb, ds_partial_selectors(sources@[i as int], j as int)),
                                ),
                            }),
                        decreases m - j,
                    {
                        let ghost before = this;
                        let sel = function_selector(&handlers[j].function);
                        this.add_triple(sb, a, sel);
                        proof {
                            let ds_i = sources@[i as int];
                            assert(sel == spec_function_selector(
                                ds_i.mapping.call_handlers@[j as int].function@,
                            ));
                            lemma_ds_partial_selectors_succ(ds_i, j as int);
                            if j == 0 {
                                assert(ds_partial_selectors(ds_i, 0) =~= Set::<
                                    FunctionSelector,
                                >::empty());
                                assert(ds_partial_selectors(ds_i, 1) =~= Set::<
                                    FunctionSelector,
                                >::empty().insert(sel));
                                match pre.spec_get(a) {
                                    Some((sb0, sels0)) => {
                                        assert(sels0.insert(sel) =~= sels0.union(
                                            ds_partial_selectors(ds_i, 1),
                                        ));
                                    },
                                    None => {},
                                }
                            } else {
                                match pre.spec_get(a) {
                                    Some((sb0, sels0)) => {
                                        assert(min64(min64(sb0, sb), sb) == min64(sb0, sb));
                                        assert(sels0.union(
                                            ds_partial_selectors(ds_i, j as int),
                                        ).insert(sel) =~= sels0.union(
                                            ds_partial_selectors(ds_i, j + 1 as int),
                                        ));
                                    },
                                    None => {
                                        assert(min64(sb, sb) == sb);
                                        assert(ds_partial_selectors(ds_i, j as int).insert(sel)
                                            =~= ds_partial_selectors(ds_i, j + 1 as int));
                                    },
                                }
                            }
                        }
                        j += 1;
                    }
                    proof {
                        let ds_i = sources@[i as int];
                        assert(ds_partial_selectors(ds_i, m as int) =~= ds_call_selectors(ds_i));
                        assert forall|b: Address| #[trigger] this.spec_get(b) == sources_call_get(
                            sources@.take(i + 1 as int),
                            b,
                        ) by {
                            if ds_i.source.address == Some(b) && ds_i.mapping.call_handlers@.len()
                                > 0 {
                                assert(b == a);
                            } else {
                                assert(this.spec_get(b) == pre.spec_get(b)) by {
                                    if b == a {
                                        assert(m == 0);
                                    }
                                }
                            }
                        }
                    }
                },
                None => {
                    proof {
                        assert forall|b: Address| #[trigger] this.spec_get(b) == sources_call_get(
                            sources@.take(i + 1 as int),
                            b,
                        ) by {}
                    }
                },
            }
            i += 1;
        }
        proof {
            assert(sources@.take(n as int) =~= sources@);
        }
        this
    }

    /// Extends this call filter with another one: the union of the watched
    /// addresses, per address the smaller start block and the union of the
    /// selector sets.
    #[verifier::loop_isolation(false)]
    pub fn extend(&mut self, other: EthereumCallFilter)
        requires
            old(self).wf(),
            other.wf(),
        ensures
            final(self).wf(),
            forall|a: Address| #[trigger] final(self).spec_get(a) == merged_call_get(
                *old(self),
                other,
                a,
            ),
    {
        let ghost other0 = other.contract_addresses_function_signatures@;
        let EthereumCallFilter { contract_addresses_function_signatures: mut rest } = other;
        proof {
            assert(rest@ =~= other0.skip(0));
        }
        let mut i: usize = 0;
        let n = rest.len();
        while i < n
            invariant
                i <= n,
                n == other0.len(),
                rest@ == other0.skip(i as int),
                self.wf(),
                forall|a: Address|
                    !kv_prefix_has(other0, i as int, a) ==> #[trigger] self.spec_get(a) == old(
                        self,
                    ).spec_get(a),
                forall|a: Address|
                    kv_prefix_has(other0, i as int, a) ==> #[trigger] self.spec_get(a)
                        == merged_call_get(*old(self), other, a),
            decreases n - i,
        {
            let e = rest.remove(0);
            let (a0, (sb0, sels0)) = e;
            proof {
                assert(e == other0[i as int]);
                assert(rest@ =~= other0.skip(i + 1 as int));
                lemma_kv_lookup_at(other0, i as int);
                assert(other.spec_get(a0) == Some((sb0, sels0@.to_set())));
                assert(!kv_prefix_has(other0, i as int, a0)) by {
                    if kv_prefix_has(other0, i as int, a0) {
                        let l = choose|l: int| 0 <= l < i && (#[trigger] other0[l]).0 == a0;
                        assert(false);
                    }
                }
            }
            let ghost pre = *self;
            let m = sels0.len();
            if m == 0 {
                // no selectors: keep the wildcard, only merging the start block
                self.merge_wildcard(sb0, a0);
                proof {
                    assert(sels0@.to_set() =~= Set::<FunctionSelector>::empty());
                    match pre.spec_get(a0) {
                        Some((sbx, selsx)) => {
                            assert(selsx.union(sels0@.to_set()) =~= selsx);
                        },
                        None => {},
                    }
                }
            } else {
                let mut l: usize = 0;
                while l < m
                    invariant
                        l <= m,
                        m == sels0@.len(),
                        self.wf(),
                        forall|b: Address| b != a0 ==> #[trigger] self.spec_get(b) == pre.spec_get(
                            b,
                        ),
                        l == 0 ==> self.spec_get(a0) == pre.spec_get(a0),
                        l > 0 ==> self.spec_get(a0) == (match pre.spec_get(a0) {
                            Some((sbx, selsx)) => Some(
                                (min64(sbx, sb0), selsx.union(sels0@.take(l as int).to_set())),
                            ),
                            None => Some((sb0, sels0@.take(l as int).to_set())),
                        }),
                    decreases m - l,
                {
                    self.add_triple(sb0, a0, sels0[l]);
                    proof {
                        assert(sels0@.take(l + 1 as int) =~= sels0@.take(l as int).push(
                            sels0@[l as int],
                        ));
                        sels0@.take(l as int).lemma_push_to_set_commute(sels0@[l as int]);
                        if l == 0 {
                            assert(sels0@.take(0).to_set() =~= Set::<FunctionSelector>::empty());
                            match pre.spec_get(a0) {
                                Some((sbx, selsx)) => {
                                    assert(selsx.insert(sels0@[0]) =~= selsx.union(
                                        sels0@.take(1).to_set(),
                                    ));
                                },
                                None => {
                                    assert(Set::<FunctionSelector>::empty().insert(sels0@[0])
                                        =~= sels0@.take(1).to_set());
                                },
                            }
                        } else {
                            match pre.spec_get(a0) {
                                Some((sbx, selsx)) => {
                                    assert(min64(min64(sbx, sb0), sb0) == min64(sbx, sb0));
                                    assert(selsx.union(sels0@.take(l as int).to_set()).insert(
                                        sels0@[l as int],
                                    ) =~= selsx.union(sels0@.take(l + 1 as int).to_set()));
                                },
                                None => {
                                    assert(min64(sb0, sb0) == sb0);
                                    assert(sels0@.take(l as int).to_set().insert(sels0@[l as int])
                                        =~= sels0@.take(l + 1 as int).to_set());
                                },
                            }
                        }
                    }
                    l += 1;
                }
                proof {
                    assert(sels0@.take(m as int) =~= sels0@);
                }
            }
            proof {
                assert(self.spec_get(a0) == merged_call_get(*old(self), other, a0));
                assert(kv_prefix_has(other0, i + 1 as int, a0)) by {
                    assert((#[trigger] other0[i as int]).0 == a0);
                }
                assert forall|a: Address|
                    kv_prefix_has(other0, i + 1 as int, a) && a != a0 implies kv_prefix_has(
                    other0,
                    i as int,
                    a,
                ) by {
                    let l = choose|l: int| 0 <= l < i + 1 && (#[trigger] other0[l]).0 == a;
                    assert(0 <= l < i);
                    assert((#[trigger] other0[l]).0 == a);
                }
                assert forall|a: Address|
                    !kv_prefix_has(other0, i + 1 as int, a) implies !kv_prefix_has(
                    other0,
                    i as int,
                    a,
                ) && a != a0 by {
                    if kv_prefix_has(other0, i as int, a) {
                        let l = choose|l: int| 0 <= l < i && (#[trigger] other0[l]).0 == a;
                        assert((#[trigger] other0[l]).0 == a);
                        assert(false);
                    }
                    assert((#[trigger] other0[i as int]).0 == a0);
                }
            }
            i += 1;
        }
        proof {
            assert forall|a: Address| #[trigger] self.spec_get(a) == merged_call_get(
                *old(self),
                other,
                a,
            ) by {
                if !kv_prefix_has(other0, n as int, a) {
                    assert forall|l: int| 0 <= l < other0.len() implies (#[trigger] other0[l]).0
                        != a by {
                        if other0[l].0 == a {
                            assert(kv_prefix_has(other0, n as int, a)) by {
                                assert((#[trigger] other0[l]).0 == a);
                            }
                        }
                    }
                    lemma_kv_lookup_none(other0, a);
                }
            }
        }
    }

    /// Merges one watched address with no selector of its own, keeping the
    /// smaller start block and the selectors already stored.
    #[verifier::loop_isolation(false)]
    fn merge_wildcard(&mut self, sb: u64, a: Address)
        requires
            old(self).wf(),
        ensures
            final(self).wf(),
            final(self).spec_get(a) == (match old(self).spec_get(a) {
                Some((sb0, sels0)) => Some((min64(sb0, sb), sels0)),
                None => Some((sb, Set::<FunctionSelector>::empty())),
            }),
            forall|b: Address| b != a ==> #[trigger] final(self).spec_get(b) == old(self).spec_get(
                b,
            ),
    {
        let n = self.contract_addresses_function_signatures.len();
        let mut k: usize = 0;
        while k < n
            invariant
                k <= n,
                n == self.contract_addresses_function_signatures@.len(),
                self == old(self),
                forall|j: int|
                    0 <= j < k ==> (#[trigger] self.contract_addresses_function_signatures@[j]).0
                        != a,
            decreases n - k,
        {
            if self.contract_addresses_function_signatures[k].0 == a {
                let ghost s1 = self.contract_addresses_function_signatures@;
                let entry = self.contract_addresses_function_signatures.remove(k);
                let (_, (sb0, sels)) = entry;
                let new_sb = if sb0 <= sb {
                    sb0
                } else {
                    sb
                };
                self.contract_addresses_function_signatures.insert(k, (a, (new_sb, sels)));
                proof {
                    let s2 = self.contract_addresses_function_signatures@;
                    assert forall|m2: int| 0 <= m2 < s2.len() && m2 != k implies s2[m2]
                        == s1[m2] by {}
                    assert(s2[k as int] == (a, (new_sb, sels)));
                    assert(keys_unique(s2)) by {
                        assert forall|i: int, j: int|
                            0 <= i < j < s2.len() implies (#[trigger] s2[i]).0 != (
                        #[trigger] s2[j]).0 by {
                            assert(s1[i].0 != s1[j].0);
                            if i != k && j != k {
                                assert(s2[i] == s1[i] && s2[j] == s1[j]);
                            } else if i == k {
                                assert(s2[j] == s1[j] && s1[j].0 != a);
                            } else {
                                assert(s2[i] == s1[i] && s1[i].0 != a);
                            }
                        }
                    }
                    lemma_kv_lookup_at(s1, k as int);
                    lemma_kv_lookup_at(s2, k as int);
                    assert forall|b: Address| b != a implies #[trigger] kv_lookup(s2, b)
                        == kv_lookup(s1, b) by {
                        assert forall|i: int|
                            0 <= i < s1.len() && (#[trigger] s1[i]).0 == b implies i < s2.len()
                            && s2[i] == s1[i] by {}
                        assert forall|i: int|
                            0 <= i < s2.len() && (#[trigger] s2[i]).0 == b implies i < s1.len()
                            && s2[i] == s1[i] by {}
                        lemma_kv_lookup_same(s1, s2, b);
                    }
                }
                return ;
            }
            k += 1;
        }
        let ghost s1 = self.contract_addresses_function_signatures@;
        let sels: Vec<FunctionSelector> = Vec::new();
        self.contract_addresses_function_signatures.push((a, (sb, sels)));
        proof {
            let s2 = self.contract_addresses_function_signatures@;
            assert(Seq::<FunctionSelector>::empty().to_set() =~= Set::<FunctionSelector>::empty());
            assert(keys_unique(s2)) by {
                assert forall|i: int, j: int|
                    0 <= i < j < s2.len() implies (#[trigger] s2[i]).0 != (#[trigger] s2[j]).0 by {
                    if j == s1.len() {
                        assert(s2[i] == s1[i]);
                    } else {
                        assert(s2[i] == s1[i] && s2[j] == s1[j]);
                    }
                }
            }
            assert forall|i: int|
                0 <= i < s2.len() implies selectors_unique((#[trigger] s2[i]).1.1@) by {
                if i < s1.len() {
                    assert(s2[i] == s1[i]);
                }
            }
            lemma_kv_lookup_none(s1, a);
            assert(s2[s1.len() as int] == (a, (sb, sels)));
            lemma_kv_lookup_at(s2, s1.len() as int);
            assert forall|b: Address| b != a implies #[trigger] kv_lookup(s2, b) == kv_lookup(
                s1,
                b,
            ) by {
                assert forall|i: int|
                    0 <= i < s1.len() && (#[trigger] s1[i]).0 == b implies i < s2.len() && s2[i]
                    == s1[i] by {}
                assert forall|i: int|
                    0 <= i < s2.len() && (#[trigger] s2[i]).0 == b implies i < s1.len() && s2[i]
                    == s1[i] by {
                    if i == s1.len() {
                        assert(s2[i].0 == a);
                    }
                }
                lemma_kv_lookup_same(s1, s2, b);
            }
        }
    }

    /// An empty filter never matches any call.
    pub proof fn lemma_empty_filter_never_matches(self, call: EthereumCall)
        requires
            self.spec_entries().len() == 0,
        ensures
            !self.spec_matches(call),
    {
        lemma_kv_lookup_none(self.spec_entries(), call.to);
    }

    /// An empty filter is one that never matches.
    pub fn is_empty(&self) -> (r: bool)
        ensures
            r == (self.spec_entries().len() == 0),
            r ==> forall|a: Address| #[trigger] self.spec_get(a) is None,
    {
        let r = self.contract_addresses_function_signatures.len() == 0;
        proof {
            if r {
                assert forall|a: Address| #[trigger] self.spec_get(a) is None by {
                    lemma_kv_lookup_none(self.contract_addresses_function_signatures@, a);
                }
            }
        }
        r
    }

    /// The per-address start blocks that are greater than zero, in entry
    /// order.
    #[verifier::loop_isolation(false)]
    pub fn start_blocks(&self) -> (r: Vec<u64>)
        ensures
            r@ == self.spec_entries().map_values(|e: CallFilterEntry| e.1.0).filter(
                |b: u64| b > 0,
            ),
    {
        let entries = &self.contract_addresses_function_signatures;
        let n = entries.len();
        let mut r: Vec<u64> = Vec::new();
        let mut k: usize = 0;
        proof {
            assert(entries@.take(0) =~= Seq::<CallFilterEntry>::empty());
            reveal(Seq::filter);
        }
        while k < n
            invariant
                k <= n,
                n == entries@.len(),
                r@ == entries@.take(k as int).map_values(|e: CallFilterEntry| e.1.0).filter(
                    |b: u64| b > 0,
                ),
            decreases n - k,
        {
            let sb = entries[k].1.0;
            proof {
                assert(entries@.take(k + 1 as int) =~= entries@.take(k as int).push(
                    entries@[k as int],
                ));
                entries@.take(k as int).lemma_push_map_commute(
                    |e: CallFilterEntry| e.1.0,
                    entries@[k as int],
                );
                entries@.take(k as int).map_values(|e: CallFilterEntry| e.1.0).lemma_filter_push(
                    entries@[k as int].1.0,
                    |b: u64| b > 0,
                );
            }
            if sb > 0 {
                r.push(sb);
            }
            k += 1;
        }
        proof {
            assert(entries@.take(n as int) =~= entries@);
        }
        r
    }

    /// What the filter holds for an address, as stored: the start block and
    /// a copy of the selector list.
    #[verifier::loop_isolation(false)]
    pub fn get(&self, address: &Address) -> (r: Option<(u64, Vec<FunctionSelector>)>)
        requires
            self.wf(),
        ensures
            match r {
                Some(e) => self.spec_get(*address) == Some((e.0, e.1@.to_set()))
                    && selectors_unique(e.1@),
                None => self.spec_get(*address) is None,
            },
    {
        let entries = &self.contract_addresses_function_signatures;
        let n = entries.len();
        let mut k: usize = 0;
        while k < n
            invariant
                k <= n,
                forall|j: int| 0 <= j < k ==> (#[trigger] entries@[j]).0 != *address,
            decreases n - k,
        {
            if entries[k].0 == *address {
                proof {
                    lemma_kv_lookup_at(entries@, k as int);
                }
                let src = &entries[k].1.1;
                let m = src.len();
                let mut sels: Vec<FunctionSelector> = Vec::new();
                let mut l: usize = 0;
                while l < m
                    invariant
                        l <= m,
                        m == src@.len(),
                        sels@ == src@.take(l as int),
                    decreases m - l,
                {
                    sels.push(src[l]);
                    proof {
                        assert(src@.take(l + 1 as int) =~= src@.take(l as int).push(
                            src@[l as int],
                        ));
                    }
                    l += 1;
                }
                proof {
                    assert(src@.take(m as int) =~= src@);
                }
                return Some((entries[k].1.0, sels));
            }
            k += 1;
        }
        proof {
            lemma_kv_lookup_none(entries@, *address);
        }
        None
    }

    /// Derives a call filter from a block filter: every watched address is
    /// carried over with its start block and an empty selector set, so any
    /// call to it matches.
    #[verifier::loop_isolation(false)]
    pub fn from_block_filter(block_filter: &EthereumBlockFilter) -> (r: Self)
        requires
            block_filter.wf(),
        ensures
            r.wf(),
            forall|a: Address| #[trigger] r.spec_get(a) == (match block_filter.spec_get(a) {
                Some(sb) => Some((sb, Set::<FunctionSelector>::empty())),
                None => None,
            }),
    {
        let entries = block_filter.contract_addresses();
        let n = entries.len();
        let mut this = EthereumCallFilter { contract_addresses_function_signatures: Vec::new() };
        let mut k: usize = 0;
        proof {
            assert forall|a: Address| #[trigger] this.spec_get(a) is None by {
                lemma_kv_lookup_none(this.contract_addresses_function_signatures@, a);
            }
        }
        while k < n
            invariant
                k <= n,
                n == block_filter.spec_entries().len(),
                this.wf(),
                this.spec_entries().len() == k,
                forall|j: int|
                    0 <= j < k ==> (#[trigger] this.spec_entries()[j]).0
                        == block_filter.spec_entries()[j].1 && this.spec_entries()[j].1.0
                        == block_filter.spec_entries()[j].0 && this.spec_entries()[j].1.1@.len()
                        == 0,
            decreases n - k,
        {
            let e = entries[k];
            let sels: Vec<FunctionSelector> = Vec::new();
            this.contract_addresses_function_signatures.push((e.1, (e.0, sels)));
            k += 1;
        }
        proof {
            let s2 = this.spec_entries();
            let s1 = block_filter.spec_entries();
            assert forall|a: Address| #[trigger] this.spec_get(a) == (match block_filter.spec_get(
                a,
            ) {
                Some(sb) => Some((sb, Set::<FunctionSelector>::empty())),
                None => None,
            }) by {
                if exists|j: int| 0 <= j < s1.len() && (#[trigger] s1[j]).1 == a {
                    let j = choose|j: int| 0 <= j < s1.len() && (#[trigger] s1[j]).1 == a;
                    crate::block_filter::lemma_lookup_at(s1, j);
                    lemma_kv_lookup_at(s2, j);
                    assert(s2[j].1.1@.to_set() =~= Set::<FunctionSelector>::empty());
                } else {
                    assert forall|j: int| 0 <= j < s1.len() implies (#[trigger] s1[j]).1 != a by {
                        if s1[j].1 == a {
                            assert((#[trigger] s1[j]).1 == a);
                        }
                    }
                    crate::block_filter::lemma_lookup_none(s1, a);
                    assert forall|j: int| 0 <= j < s2.len() implies (#[trigger] s2[j]).0 != a by {
                        if s2[j].0 == a {
                            assert((#[trigger] s1[j]).1 == a);
                        }
                    }
                    lemma_kv_lookup_none(s2, a);
                }
            }
        }
        this
    }
}

impl Default for EthereumCallFilter {
    /// The filter that watches nothing.
    fn default() -> (r: Self)
        ensures
            r.wf(),
            r.spec_entries().len() == 0,
            forall|a: Address| #[trigger] r.spec_get(a) is None,
    {
        let r = EthereumCallFilter { contract_addresses_function_signatures: Vec::new() };
        proof {
            assert forall|a: Address| #[trigger] r.spec_get(a) is None by {
                lemma_kv_lookup_none(r.contract_addresses_function_signatures@, a);
            }
        }
        r
    }
}

/// An address occurs in the first `i` entries.
pub open spec fn kv_prefix_has(s: Seq<CallFilterEntry>, i: int, a: Address) -> bool {
    exists|l: int| 0 <= l < i && (#[trigger] s[l]).0 == a
}

/// The per-address result of merging two call filters: the union of the
/// watched addresses, per address the smaller start block and the union of
/// the selector sets.
pub open spec fn merged_call_get(
    f1: EthereumCallFilter,
    f2: EthereumCallFilter,
    a: Address,
) -> Option<(u64, Set<FunctionSelector>)> {
    match (f1.spec_get(a), f2.spec_get(a)) {
        (Some((s1, x1)), Some((s2, x2))) => Some((min64(s1, s2), x1.union(x2))),
        (Some(e1), None) => Some(e1),
        (None, Some(e2)) => Some(e2),
        (None, None) => None,
    }
}

/// What a list of (start block, address, selector) triples holds for an
/// address: the smallest start block and the set of its selectors.
pub open spec fn triples_get(
    ts: Seq<(u64, Address, FunctionSelector)>,
    a: Address,
) -> Option<(u64, Set<FunctionSelector>)>
    decreases ts.len(),
{
    if ts.len() == 0 {
        None
    } else {
        let rest = triples_get(ts.drop_last(), a);
        let t = ts.last();
        if t.1 == a {
            match rest {
                Some((sb, sels)) => Some((min64(sb, t.0), sels.insert(t.2))),
                None => Some((t.0, Set::<FunctionSelector>::empty().insert(t.2))),
            }
        } else {
            rest
        }
    }
}

/// The selectors of the first `j` call handlers of a data source.
pub open spec fn ds_partial_selectors(ds: DataSource, j: int) -> Set<FunctionSelector> {
    Set::new(
        |s: FunctionSelector|
            exists|l: int|
                0 <= l < j && s == spec_function_selector(
                    (#[trigger] ds.mapping.call_handlers@[l]).function@,
                ),
    )
}

/// The selectors of all call handlers of a data source.
pub open spec fn ds_call_selectors(ds: DataSource) -> Set<FunctionSelector> {
    ds_partial_selectors(ds, ds.mapping.call_handlers@.len() as int)
}

proof fn lemma_ds_partial_selectors_succ(ds: DataSource, j: int)
    requires
        0 <= j < ds.mapping.call_handlers@.len(),
    ensures
        ds_partial_selectors(ds, j + 1) == ds_partial_selectors(ds, j).insert(
            spec_function_selector(ds.mapping.call_handlers@[j].function@),
        ),
{
    let sel = spec_function_selector(ds.mapping.call_handlers@[j].function@);
    assert forall|s: FunctionSelector|
        ds_partial_selectors(ds, j + 1).contains(s) implies ds_partial_selectors(ds, j).insert(
        sel,
    ).contains(s) by {
        let l = choose|l: int|
            0 <= l < j + 1 && s == spec_function_selector(
                (#[trigger] ds.mapping.call_handlers@[l]).function@,
            );
        if l < j {
            assert(ds_partial_selectors(ds, j).contains(s)) by {
                assert(s == spec_function_selector(
                    (#[trigger] ds.mapping.call_handlers@[l]).function@,
                ));
            }
        }
    }
    assert forall|s: FunctionSelector|
        ds_partial_selectors(ds, j).insert(sel).contains(s) implies ds_partial_selectors(
        ds,
        j + 1,
    ).contains(s) by {
        if ds_partial_selectors(ds, j).contains(s) {
            let l = choose|l: int|
                0 <= l < j && s == spec_function_selector(
                    (#[trigger] ds.mapping.call_handlers@[l]).function@,
                );
            assert(s == spec_function_selector(
                (#[trigger] ds.mapping.call_handlers@[l]).function@,
            ));
        } else {
            assert(s == spec_function_selector(
                (#[trigger] ds.mapping.call_handlers@[j]).function@,
            ));
        }
    }
    assert(ds_partial_selectors(ds, j + 1) =~= ds_partial_selectors(ds, j).insert(sel));
}

/// What a list of data sources holds for an address: present when some
/// data source names the address and declares a call handler; then the
/// smallest such start block and the union of the declared selectors.
pub open spec fn sources_call_get(dss: Seq<DataSource>, a: Address) -> Option<
    (u64, Set<FunctionSelector>),
>
    decreases dss.len(),
{
    if dss.len() == 0 {
        None
    } else {
        let rest = sources_call_get(dss.drop_last(), a);
        let ds = dss.last();
        if ds.source.address == Some(a) && ds.mapping.call_handlers@.len() > 0 {
            match rest {
                Some((sb, sels)) => Some(
                    (min64(sb, ds.source.start_block), sels.union(ds_call_selectors(ds))),
                ),
                None => Some((ds.source.start_block, ds_call_selectors(ds))),
            }
        } else {
            rest
        }
    }
}

/// Whether a data source contributes a call-filter entry for an address:
/// it names the address and declares at least one call handler.
pub open spec fn ds_contributes_call(ds: DataSource, a: Address) -> bool {
    ds.source.address == Some(a) && ds.mapping.call_handlers@.len() > 0
}

/// What `sources_call_get` holds, spelled out: an entry exists exactly when
/// some data source contributes one; its selector set is the union of the
/// contributed selectors; and its start block is the smallest contributed
/// start block.
pub proof fn lemma_sources_call_get_characterization(dss: Seq<DataSource>, a: Address)
    ensures
        (sources_call_get(dss, a) is Some) == exists|i: int|
            0 <= i < dss.len() && ds_contributes_call(#[trigger] dss[i], a),
        sources_call_get(dss, a) is Some ==> (sources_call_get(dss, a)->Some_0).1 == Set::new(
            |s: FunctionSelector|
                exists|i: int|
                    0 <= i < dss.len() && ds_contributes_call(#[trigger] dss[i], a)
                        && ds_call_selectors(dss[i]).contains(s),
        ),
        sources_call_get(dss, a) is Some ==> (exists|i: int|
            0 <= i < dss.len() && ds_contributes_call(#[trigger] dss[i], a)
                && dss[i].source.start_block == (sources_call_get(dss, a)->Some_0).0),
        sources_call_get(dss, a) is Some ==> (forall|i: int|
            0 <= i < dss.len() && ds_contributes_call(#[trigger] dss[i], a) ==> (sources_call_get(
                dss,
                a,
            )->Some_0).0 <= dss[i].source.start_block),
    decreases dss.len(),
{
    if dss.len() > 0 {
        let dl = dss.drop_last();
        let last = dss.last();
        let m = dl.len() as int;
        lemma_sources_call_get_characterization(dl, a);
        assert forall|i: int| 0 <= i < m implies (#[trigger] dl[i]) == dss[i] by {}
        assert(dss[m] == last);
        if exists|i: int| 0 <= i < dl.len() && ds_contributes_call(#[trigger] dl[i], a) {
            let i = choose|i: int| 0 <= i < dl.len() && ds_contributes_call(#[trigger] dl[i], a);
            assert(ds_contributes_call(dss[i], a));
        }
        if exists|i: int| 0 <= i < dss.len() && ds_contributes_call(#[trigger] dss[i], a) {
            let i = choose|i: int| 0 <= i < dss.len() && ds_contributes_call(#[trigger] dss[i], a);
            if i < m {
                assert(ds_contributes_call(dl[i], a));
            }
        }
        if sources_call_get(dss, a) is Some {
            let sels = (sources_call_get(dss, a)->Some_0).1;
            let target = Set::new(
                |s: FunctionSelector|
                    exists|i: int|
                        0 <= i < dss.len() && ds_contributes_call(#[trigger] dss[i], a)
                            && ds_call_selectors(dss[i]).contains(s),
            );
            assert forall|s: FunctionSelector| sels.contains(s) implies target.contains(s) by {
                if ds_contributes_call(last, a) && ds_call_selectors(last).contains(s) {
                    assert(ds_contributes_call(dss[m], a) && ds_call_selectors(dss[m]).contains(s));
                } else {
                    let i = choose|i: int|
                        0 <= i < dl.len() && ds_contributes_call(#[trigger] dl[i], a)
                            && ds_call_selectors(dl[i]).contains(s);
                    assert(ds_contributes_call(dss[i], a) && ds_call_selectors(dss[i]).contains(s));
                }
            }
            assert forall|s: FunctionSelector| target.contains(s) implies sels.contains(s) by {
                let i = choose|i: int|
                    0 <= i < dss.len() && ds_contributes_call(#[trigger] dss[i], a)
                        && ds_call_selectors(dss[i]).contains(s);
                if i < m {
                    assert(ds_contributes_call(dl[i], a) && ds_call_selectors(dl[i]).contains(s));
                }
            }
            assert(sels =~= target);
            let sb = (sources_call_get(dss, a)->Some_0).0;
            if ds_contributes_call(last, a) && (sources_call_get(dl, a) is None
                || last.source.start_block <= (sources_call_get(dl, a)->Some_0).0) {
                assert(ds_contributes_call(dss[m], a) && dss[m].source.start_block == sb);
            } else if sources_call_get(dl, a) is Some {
                let i = choose|i: int|
                    0 <= i < dl.len() && ds_contributes_call(#[trigger] dl[i], a)
                        && dl[i].source.start_block == (sources_call_get(dl, a)->Some_0).0;
                assert(ds_contributes_call(dss[i], a) && dss[i].source.start_block == sb);
            }
            assert forall|i: int|
                0 <= i < dss.len() && ds_contributes_call(#[trigger] dss[i], a) implies sb
                <= dss[i].source.start_block by {
                if i < m {
                    assert(ds_contributes_call(dl[i], a));
                }
            }
        }
    }
}

/// The direct reading of a list of data sources: a call is of interest iff
/// its input carries a selector and some data source names its target
/// address and declares a call handler with that selector.
pub open spec fn sources_match_call(dss: Seq<DataSource>, call: EthereumCall) -> bool {
    &&& call.input@.len() >= 4
    &&& exists|i: int, j: int|
        0 <= i < dss.len() && (#[trigger] dss[i]).source.address == Some(call.to) && 0 <= j < dss[i].mapping.call_handlers@.len()
            && input_selector(call.input@) == spec_function_selector(
            (#[trigger] dss[i].mapping.call_handlers@[j]).function@,
        )
}

/// Round trip: the filter built from a list of data sources matches a call
/// exactly when the data sources, read directly, declare an interest in it.
pub proof fn lemma_from_data_sources_matches_call(
    f: EthereumCallFilter,
    dss: Seq<DataSource>,
    call: EthereumCall,
)
    requires
        forall|a: Address| #[trigger] f.spec_get(a) == sources_call_get(dss, a),
    ensures
        f.spec_matches(call) == sources_match_call(dss, call),
{
    lemma_sources_call_get_characterization(dss, call.to);
    assert(f.spec_get(call.to) == sources_call_get(dss, call.to));
    if f.spec_matches(call) {
        let (sb, sels) = f.spec_get(call.to)->Some_0;
        let i0 = choose|i: int| 0 <= i < dss.len() && ds_contributes_call(#[trigger] dss[i], call.to);
        assert(sels != Set::<FunctionSelector>::empty()) by {
            let s0 = spec_function_selector(
                dss[i0].mapping.call_handlers@[0].function@,
            );
            assert(ds_call_selectors(dss[i0]).contains(s0)) by {
                assert(0 <= 0 < dss[i0].mapping.call_handlers@.len() && s0
                    == spec_function_selector(
                    (#[trigger] dss[i0].mapping.call_handlers@[0]).function@,
                ));
            }
            assert(sels.contains(s0));
        }
        let sel = input_selector(call.input@);
        assert(sels.contains(sel));
        let i = choose|i: int|
            0 <= i < dss.len() && ds_contributes_call(#[trigger] dss[i], call.to)
                && ds_call_selectors(dss[i]).contains(sel);
        let j = choose|j: int|
            0 <= j < dss[i].mapping.call_handlers@.len() && sel == spec_function_selector(
                (#[trigger] dss[i].mapping.call_handlers@[j]).function@,
            );
        assert((#[trigger] dss[i]).source.address == Some(call.to) && 0 <= j < dss[i].mapping.call_handlers@.len()
            && input_selector(call.input@) == spec_function_selector(
            (#[trigger] dss[i].mapping.call_handlers@[j]).function@,
        ));
    }
    if sources_match_call(dss, call) {
        let sel = input_selector(call.input@);
        let (i, j) = choose|i: int, j: int|
            0 <= i < dss.len() && (#[trigger] dss[i]).source.address == Some(call.to) && 0 <= j < dss[i].mapping.call_handlers@.len()
                && sel == spec_function_selector(
                (#[trigger] dss[i].mapping.call_handlers@[j]).function@,
            );
        assert(ds_contributes_call(dss[i], call.to));
        assert(ds_call_selectors(dss[i]).contains(sel)) by {
            assert(0 <= j < dss[i].mapping.call_handlers@.len() && sel == spec_function_selector(
                (#[trigger] dss[i].mapping.call_handlers@[j]).function@,
            ));
        }
        assert(f.spec_get(call.to) is Some);
        let sels = (f.spec_get(call.to)->Some_0).1;
        assert(sels.contains(sel));
    }
}

/// Converting the merge of two block filters into a call filter keys every
/// address watched by either side, elementwise with the smaller of the two
/// start blocks and an empty selector set.
pub proof fn lemma_from_merged_block_filter(
    a: EthereumBlockFilter,
    b: EthereumBlockFilter,
    merged: EthereumBlockFilter,
    cf: EthereumCallFilter,
)
    requires
        forall|x: Address| #[trigger] merged.spec_get(x) == crate::block_filter::merged_block_get(
            a,
            b,
            x,
        ),
        forall|x: Address| #[trigger] cf.spec_get(x) == (match merged.spec_get(x) {
            Some(sb) => Some((sb, Set::<FunctionSelector>::empty())),
            None => None,
        }),
    ensures
        forall|x: Address|
            (#[trigger] cf.spec_get(x) is Some) == (a.spec_get(x) is Some || b.spec_get(x)
                is Some),
        forall|x: Address|
            a.spec_get(x) is Some && b.spec_get(x) is Some ==> #[trigger] cf.spec_get(x) == Some(
                (min64(a.spec_get(x)->Some_0, b.spec_get(x)->Some_0), Set::<
                    FunctionSelector,
                >::empty()),
            ),
        forall|x: Address|
            a.spec_get(x) is Some && b.spec_get(x) is None ==> #[trigger] cf.spec_get(x) == Some(
                (a.spec_get(x)->Some_0, Set::<FunctionSelector>::empty()),
            ),
        forall|x: Address|
            a.spec_get(x) is None && b.spec_get(x) is Some ==> #[trigger] cf.spec_get(x) == Some(
                (b.spec_get(x)->Some_0, Set::<FunctionSelector>::empty()),
            ),
{
}

} // verus!

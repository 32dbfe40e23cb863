use vstd::prelude::*;

use crate::types::{Address, BlockHandlerFilter, DataSource};

verus! {

/// The smaller of two block numbers.
pub open spec fn min64(x: u64, y: u64) -> u64 {
    if x <= y {
        x
    } else {
        y
    }
}

/// Each address occurs in at most one entry of the association list.
pub open spec fn entries_unique(s: Seq<(u64, Address)>) -> bool {
    forall|i: int, j: int|
        0 <= i < j < s.len() ==> (#[trigger] s[i]).1 != (#[trigger] s[j]).1
}

/// Association-list lookup by address.
pub closed spec fn lookup(s: Seq<(u64, Address)>, a: Address) -> Option<u64> {
    if exists|i: int| 0 <= i < s.len() && (#[trigger] s[i]).1 == a {
        let i = choose|i: int| 0 <= i < s.len() && (#[trigger] s[i]).1 == a;
        Some(s[i].0)
    } else {
        None
    }
}

/// In a duplicate-free list, the entry at an index is what lookup by its
/// address finds.
pub proof fn lemma_lookup_at(s: Seq<(u64, Address)>, j: int)
    requires
        entries_unique(s),
        0 <= j < s.len(),
    ensures
        lookup(s, s[j].1) == Some(s[j].0),
{
    let a = s[j].1;
    assert((#[trigger] s[j]).1 == a);
    let i = choose|i: int| 0 <= i < s.len() && (#[trigger] s[i]).1 == a;
    if i != j {
        assert(false);
    }
}

/// An address on no entry has no lookup result.
pub proof fn lemma_lookup_none(s: Seq<(u64, Address)>, a: Address)
    requires
        forall|i: int| 0 <= i < s.len() ==> (#[trigger] s[i]).1 != a,
    ensures
        lookup(s, a) is None,
{
}

/// Two duplicate-free lists that agree on every entry holding an address
/// give that address the same lookup result.
pub proof fn lemma_lookup_same(s1: Seq<(u64, Address)>, s2: Seq<(u64, Address)>, b: Address)
    requires
        entries_unique(s1),
        forall|i: int| 0 <= i < s1.len() && (#[trigger] s1[i]).1 == b ==> i < s2.len() && s2[i] == s1[i],
        forall|i: int| 0 <= i < s2.len() && (#[trigger] s2[i]).1 == b ==> i < s1.len() && s2[i] == s1[i],
    ensures
        lookup(s2, b) == lookup(s1, b),
{
    if exists|i: int| 0 <= i < s1.len() && (#[trigger] s1[i]).1 == b {
        let i = choose|i: int| 0 <= i < s1.len() && (#[trigger] s1[i]).1 == b;
        assert(s2[i] == s1[i]);
        assert((#[trigger] s2[i]).1 == b);
        let j = choose|j: int| 0 <= j < s2.len() && (#[trigger] s2[j]).1 == b;
        assert(s2[j] == s1[j]);
        if i != j {
            assert(false);
        }
    } else {
        assert forall|j: int| 0 <= j < s2.len() implies (#[trigger] s2[j]).1 != b by {
            if s2[j].1 == b {
                assert(s2[j] == s1[j]);
            }
        }
        lemma_lookup_none(s2, b);
    }
}

/// Interest in block-level triggers: either on every block, or on blocks
/// holding a call to one of a set of addresses, each watched from a start
/// block on.
#[derive(Clone, Debug)]
pub struct EthereumBlockFilter {
    /// One entry per watched address: its start block and the address.
    pub contract_addresses: Vec<(u64, Address)>,
    /// Trigger on every block, regardless of its contents.
    pub trigger_every_block: bool,
}

impl EthereumBlockFilter {
    /// The watched addresses, as stored.
    pub open spec fn spec_entries(self) -> Seq<(u64, Address)> {
        self.contract_addresses@
    }

    /// Each address is stored at most once.
    pub open spec fn wf(self) -> bool {
        entries_unique(self.spec_entries())
    }

    /// The start block an address is watched from, `None` when the address
    /// is not watched.
    pub open spec fn spec_get(self, a: Address) -> Option<u64> {
        lookup(self.spec_entries(), a)
    }

    /// Checks the stored representation: each address at most once.
    /// Callers outside the verified world can test this before handing the
    /// filter to a function that requires a well-formed one; filters built
    /// by this crate's constructors are always well-formed.
    #[verifier::loop_isolation(false)]
    pub fn is_well_formed(&self) -> (r: bool)
        ensures
            r == self.wf(),
    {
        let n = self.contract_addresses.len();
        let mut i: usize = 0;
        while i < n
            invariant
                i <= n,
                forall|x: int, y: int|
                    0 <= x < i && x < y < n ==> (#[trigger] self.contract_addresses@[x]).1 != (
                    #[trigger] self.contract_addresses@[y]).1,
            decreases n - i,
        {
            let mut j: usize = i + 1;
            while j < n
                invariant
                    i < j <= n,
                    forall|y: int|
                        i < y < j ==> (#[trigger] self.contract_addresses@[y]).1
                            != self.contract_addresses@[i as int].1,
                decreases n - j,
            {
                if self.contract_addresses[j].1 == self.contract_addresses[i].1 {
                    proof {
                        assert((#[trigger] self.contract_addresses@[i as int]).1 == (
                        #[trigger] self.contract_addresses@[j as int]).1);
                    }
                    return false;
                }
                j += 1;
            }
            i += 1;
        }
        true
    }

    /// Read access to the watched addresses.
    pub fn contract_addresses(&self) -> (r: &Vec<(u64, Address)>)
        ensures
            r@ == self.spec_entries(),
    {
        &self.contract_addresses
    }

    /// Whether the address is watched.
    #[verifier::loop_isolation(false)]
    pub fn has_address(&self, a: &Address) -> (r: bool)
        requires
            self.wf(),
        ensures
            r == (self.spec_get(*a) is Some),
    {
        let n = self.contract_addresses.len();
        let mut k: usize = 0;
        while k < n
            invariant
                k <= n,
                n == self.contract_addresses@.len(),
                forall|j: int| 0 <= j < k ==> (#[trigger] self.contract_addresses@[j]).1 != *a,
            decreases n - k,
        {
            if self.contract_addresses[k].1 == *a {
                proof {
                    lemma_lookup_at(self.contract_addresses@, k as int);
                }
                return true;
            }
            k += 1;
        }
        proof {
            lemma_lookup_none(self.contract_addresses@, *a);
        }
        false
    }

    /// Merges one watched address in, keeping the smaller start block.
    #[verifier::loop_isolation(false)]
    fn merge_address(&mut self, sb: u64, a: Address)
        requires
            old(self).wf(),
        ensures
            final(self).wf(),
            final(self).trigger_every_block == old(self).trigger_every_block,
            final(self).spec_get(a) == (match old(self).spec_get(a) {
                Some(sb0) => Some(min64(sb0, sb)),
                None => Some(sb),
            }),
            forall|b: Address| b != a ==> #[trigger] final(self).spec_get(b) == old(self).spec_get(
                b,
            ),
    {
        let n = self.contract_addresses.len();
        let mut k: usize = 0;
        while k < n
            invariant
                k <= n,
                n == self.contract_addresses@.len(),
                self == old(self),
                forall|j: int| 0 <= j < k ==> (#[trigger] self.contract_addresses@[j]).1 != a,
            decreases n - k,
        {
            let e = self.contract_addresses[k];
            if e.1 == a {
                let new_sb = if e.0 <= sb {
                    e.0
                } else {
                    sb
                };
                let ghost s1 = self.contract_addresses@;
                let _ = self.contract_addresses.remove(k);
                self.contract_addresses.insert(k, (new_sb, a));
                proof {
                    let s2 = self.contract_addresses@;
                    assert forall|m: int| 0 <= m < s2.len() && m != k implies s2[m] == s1[m] by {}
                    assert(s2[k as int] == (new_sb, a));
                    assert(entries_unique(s2)) by {
                        assert forall|i: int, j: int|
                            0 <= i < j < s2.len() implies (#[trigger] s2[i]).1 != (
                        #[trigger] s2[j]).1 by {
                            assert(s1[i].1 != s1[j].1);
                            if i != k && j != k {
                                assert(s2[i] == s1[i] && s2[j] == s1[j]);
                            } else if i == k {
                                assert(s2[j] == s1[j] && s1[j].1 != a);
                            } else {
                                assert(s2[i] == s1[i] && s1[i].1 != a);
                            }
                        }
                    }
                    lemma_lookup_at(s1, k as int);
                    lemma_lookup_at(s2, k as int);
                    assert forall|b: Address| b != a implies #[trigger] lookup(s2, b) == lookup(
                        s1,
                        b,
                    ) by {
                        assert forall|i: int|
                            0 <= i < s1.len() && (#[trigger] s1[i]).1 == b implies i < s2.len()
                            && s2[i] == s1[i] by {}
                        assert forall|i: int|
                            0 <= i < s2.len() && (#[trigger] s2[i]).1 == b implies i < s1.len()
                            && s2[i] == s1[i] by {}
                        lemma_lookup_same(s1, s2, b);
                    }
                }
                return ;
            }
            k += 1;
        }
        let ghost s1 = self.contract_addresses@;
        self.contract_addresses.push((sb, a));
        proof {
            let s2 = self.contract_addresses@;
            assert(entries_unique(s2)) by {
                assert forall|i: int, j: int|
                    0 <= i < j < s2.len() implies (#[trigger] s2[i]).1 != (#[trigger] s2[j]).1 by {
                    if j == s1.len() {
                        assert(s2[i] == s1[i]);
                    } else {
                        assert(s2[i] == s1[i] && s2[j] == s1[j]);
                    }
                }
            }
            lemma_lookup_none(s1, a);
            assert(s2[s1.len() as int] == (sb, a));
            lemma_lookup_at(s2, s1.len() as int);
            assert forall|b: Address| b != a implies #[trigger] lookup(s2, b) == lookup(s1, b) by {
                assert forall|i: int|
                    0 <= i < s1.len() && (#[trigger] s1[i]).1 == b implies i < s2.len() && s2[i]
                    == s1[i] by {}
                assert forall|i: int|
                    0 <= i < s2.len() && (#[trigger] s2[i]).1 == b implies i < s1.len() && s2[i]
                    == s1[i] by {
                    if i == s1.len() {
                        assert(s2[i].1 == a);
                    }
                }
                lemma_lookup_same(s1, s2, b);
            }
        }
    }

    /// Builds the block filter declared by a list of data sources. A
    /// block handler without a filter asks for a trigger on every block,
    /// whether or not its data source names an address; a block handler
    /// with a `Call` filter watches the data source's address from its
    /// start block, so it takes part only when an address is named.
    #[verifier::loop_isolation(false)]
    pub fn from_data_sources(sources: &Vec<DataSource>) -> (r: Self)
        ensures
            r.wf(),
            r.trigger_every_block == sources_trigger_every(sources@),
            forall|a: Address| #[trigger] r.spec_get(a) == sources_block_get(sources@, a),
    {
        let mut this = EthereumBlockFilter {
            contract_addresses: Vec::new(),
            trigger_every_block: false,
        };
        let n = sources.len();
        let mut i: usize = 0;
        proof {
            assert(sources@.take(0) =~= Seq::<DataSource>::empty());
            assert forall|a: Address| #[trigger] this.spec_get(a) == sources_block_get(
                sources@.take(0),
                a,
            ) by {
                lemma_lookup_none(this.contract_addresses@, a);
            }
        }
        while i < n
            invariant
                i <= n,
                this.wf(),
                this.trigger_every_block == sources_trigger_every(sources@.take(i as int)),
                forall|a: Address| #[trigger] this.spec_get(a) == sources_block_get(
                    sources@.take(i as int),
                    a,
                ),
            decreases n - i,
        {
            let ds = &sources[i];
            let ghost pre = this;
            proof {
                assert(sources@.take(i + 1 as int).drop_last() =~= sources@.take(i as int));
                assert(sources@.take(i + 1 as int).last() == sources@[i as int]);
                lemma_trigger_every_take_succ(sources@, i as int);
            }
            let handlers = &ds.mapping.block_handlers;
            let m = handlers.len();
            let mut has_call_filter = false;
            let mut has_no_filter = false;
            let mut j: usize = 0;
            while j < m
                invariant
                    j <= m,
                    m == handlers@.len(),
                    this == pre,
                    has_call_filter == exists|l: int|
                        0 <= l < j && (#[trigger] handlers@[l]).filter == Some(
                            BlockHandlerFilter::Call,
                        ),
                    has_no_filter == exists|l: int|
                        0 <= l < j && (#[trigger] handlers@[l]).filter is None,
                decreases m - j,
            {
                match &handlers[j].filter {
                    Some(f) => match f {
                        BlockHandlerFilter::Call => {
                            has_call_filter = true;
                            proof {
                                assert((#[trigger] handlers@[j as int]).filter == Some(
                                    BlockHandlerFilter::Call,
                                ));
                            }
                        },
                    },
                    None => {
                        has_no_filter = true;
                        proof {
                            assert((#[trigger] handlers@[j as int]).filter is None);
                        }
                    },
                }
                proof {
                    assert forall|l: int|
                        0 <= l < j + 1 && (#[trigger] handlers@[l]).filter == Some(
                            BlockHandlerFilter::Call,
                        ) implies has_call_filter || handlers@[j as int].filter == Some(
                        BlockHandlerFilter::Call,
                    ) by {}
                }
                j += 1;
            }
            proof {
                assert(has_call_filter == ds_has_call_block_handler(sources@[i as int]));
                assert(has_no_filter == ds_has_every_block_handler(sources@[i as int]));
            }
            if has_no_filter {
                this.trigger_every_block = true;
            }
            match &ds.source.address {
                Some(address) => {
                    let a = *address;
                    if has_call_filter {
                        this.merge_address(ds.source.start_block, a);
                    }
                    proof {
                        assert forall|b: Address| #[trigger] this.spec_get(b) == sources_block_get(
                            sources@.take(i + 1 as int),
                            b,
                        ) by {
                            let t1 = sources@.take(i + 1 as int);
                            assert(t1.drop_last() == sources@.take(i as int));
                            assert(t1.last() == sources@[i as int]);
                            if sources@[i as int].source.address == Some(b) && has_call_filter {
                                assert(b == a);
                                assert(this.spec_get(a) == (match pre.spec_get(a) {
                                    Some(sb0) => Some(
                                        min64(sb0, sources@[i as int].source.start_block),
                                    ),
                                    None => Some(sources@[i as int].source.start_block),
                                }));
                            } else {
                                assert(this.spec_get(b) == pre.spec_get(b));
                            }
                        }
                    }
                },
                None => {
                    proof {
                        assert forall|b: Address| #[trigger] this.spec_get(b) == sources_block_get(
                            sources@.take(i + 1 as int),
                            b,
                        ) by {
                            let t1 = sources@.take(i + 1 as int);
                            assert(t1.drop_last() == sources@.take(i as int));
                            assert(t1.last() == sources@[i as int]);
                            assert(this.spec_get(b) == pre.spec_get(b));
                        }
                    }
                },
            }
            i += 1;
        }
        proof {
            assert(sources@.take(n as int) =~= sources@);
        }
        this
    }

    /// Extends this block filter with another one: triggering on every
    /// block if either side does, and watching the union of the addresses,
    /// each from the smaller of the two start blocks.
    #[verifier::loop_isolation(false)]
    pub fn extend(&mut self, other: EthereumBlockFilter)
        requires
            old(self).wf(),
            other.wf(),
        ensures
            final(self).wf(),
            final(self).trigger_every_block == (old(self).trigger_every_block
                || other.trigger_every_block),
            forall|a: Address| #[trigger] final(self).spec_get(a) == merged_block_get(
                *old(self),
                other,
                a,
            ),
    {
        let ghost other0 = other.contract_addresses@;
        if other.trigger_every_block {
            self.trigger_every_block = true;
        }
        let EthereumBlockFilter { contract_addresses: mut rest, trigger_every_block: _ } = other;
        proof {
            assert(rest@ =~= other0.skip(0));
        }
        let mut i: usize = 0;
        let n = rest.len();
        while i < n
            invariant
                i <= n,
                n == other0.len(),
                rest@ == other0.skip(i as int),
                self.wf(),
                self.trigger_every_block == (old(self).trigger_every_block
                    || other.trigger_every_block),
                forall|a: Address|
                    !prefix_has(other0, i as int, a) ==> #[trigger] self.spec_get(a) == old(
                        self,
                    ).spec_get(a),
                forall|a: Address|
                    prefix_has(other0, i as int, a) ==> #[trigger] self.spec_get(a)
                        == merged_block_get(*old(self), other, a),
            decreases n - i,
        {
            let e = rest.remove(0);
            proof {
                assert(e == other0[i as int]);
                assert(rest@ =~= other0.skip(i + 1 as int));
                lemma_lookup_at(other0, i as int);
                assert(other.spec_get(e.1) == Some(e.0));
                assert(!prefix_has(other0, i as int, e.1)) by {
                    if prefix_has(other0, i as int, e.1) {
                        let l = choose|l: int| 0 <= l < i && (#[trigger] other0[l]).1 == e.1;
                        assert(false);
                    }
                }
            }
            self.merge_address(e.0, e.1);
            proof {
                assert(prefix_has(other0, i + 1 as int, e.1)) by {
                    assert((#[trigger] other0[i as int]).1 == e.1);
                }
                assert forall|a: Address|
                    prefix_has(other0, i + 1 as int, a) && a != e.1 implies prefix_has(
                    other0,
                    i as int,
                    a,
                ) by {
                    let l = choose|l: int| 0 <= l < i + 1 && (#[trigger] other0[l]).1 == a;
                    assert(0 <= l < i);
                    assert((#[trigger] other0[l]).1 == a);
                }
                assert forall|a: Address|
                    !prefix_has(other0, i + 1 as int, a) implies !prefix_has(
                    other0,
                    i as int,
                    a,
                ) && a != e.1 by {
                    if prefix_has(other0, i as int, a) {
                        let l = choose|l: int| 0 <= l < i && (#[trigger] other0[l]).1 == a;
                        assert((#[trigger] other0[l]).1 == a);
                        assert(false);
                    }
                    assert((#[trigger] other0[i as int]).1 == e.1);
                }
            }
            i += 1;
        }
        proof {
            assert forall|a: Address| #[trigger] self.spec_get(a) == merged_block_get(
                *old(self),
                other,
                a,
            ) by {
                if !prefix_has(other0, n as int, a) {
                    assert forall|l: int| 0 <= l < other0.len() implies (#[trigger] other0[l]).1
                        != a by {
                        if other0[l].1 == a {
                            assert(prefix_has(other0, n as int, a)) by {
                                assert((#[trigger] other0[l]).1 == a);
                            }
                        }
                    }
                    lemma_lookup_none(other0, a);
                }
            }
        }
    }

    /// The start blocks of the watched addresses that are greater than
    /// zero, in entry order.
    #[verifier::loop_isolation(false)]
    pub fn start_blocks(&self) -> (r: Vec<u64>)
        ensures
            r@ == self.spec_entries().map_values(|e: (u64, Address)| e.0).filter(|b: u64| b > 0),
    {
        let entries = &self.contract_addresses;
        let n = entries.len();
        let mut r: Vec<u64> = Vec::new();
        let mut k: usize = 0;
        proof {
            assert(entries@.take(0) =~= Seq::<(u64, Address)>::empty());
            reveal(Seq::filter);
        }
        while k < n
            invariant
                k <= n,
                n == entries@.len(),
                r@ == entries@.take(k as int).map_values(|e: (u64, Address)| e.0).filter(
                    |b: u64| b > 0,
                ),
            decreases n - k,
        {
            let e = entries[k];
            proof {
                assert(entries@.take(k + 1 as int) =~= entries@.take(k as int).push(
                    entries@[k as int],
                ));
                entries@.take(k as int).lemma_push_map_commute(
                    |e: (u64, Address)| e.0,
                    entries@[k as int],
                );
                entries@.take(k as int).map_values(|e: (u64, Address)| e.0).lemma_filter_push(
                    entries@[k as int].0,
                    |b: u64| b > 0,
                );
            }
            if e.0 > 0 {
                r.push(e.0);
            }
            k += 1;
        }
        proof {
            assert(entries@.take(n as int) =~= entries@);
        }
        r
    }
}

impl Default for EthereumBlockFilter {
    /// The filter that watches nothing.
    fn default() -> (r: Self)
        ensures
            r.wf(),
            !r.trigger_every_block,
            r.spec_entries().len() == 0,
            forall|a: Address| #[trigger] r.spec_get(a) is None,
    {
        let r = EthereumBlockFilter { contract_addresses: Vec::new(), trigger_every_block: false };
        proof {
            assert forall|a: Address| #[trigger] r.spec_get(a) is None by {
                lemma_lookup_none(r.contract_addresses@, a);
            }
        }
        r
    }
}

/// Whether a data source declares a block handler with a `Call` filter.
pub open spec fn ds_has_call_block_handler(ds: DataSource) -> bool {
    exists|j: int|
        0 <= j < ds.mapping.block_handlers@.len()
            && (#[trigger] ds.mapping.block_handlers@[j]).filter == Some(BlockHandlerFilter::Call)
}

/// Whether a data source declares a block handler without a filter.
pub open spec fn ds_has_every_block_handler(ds: DataSource) -> bool {
    exists|j: int|
        0 <= j < ds.mapping.block_handlers@.len()
            && (#[trigger] ds.mapping.block_handlers@[j]).filter is None
}

/// Whether some data source asks for a trigger on every block: a block
/// handler without a filter does, whether or not its data source names an
/// address.
pub open spec fn sources_trigger_every(dss: Seq<DataSource>) -> bool {
    exists|i: int| 0 <= i < dss.len() && ds_has_every_block_handler(#[trigger] dss[i])
}

/// The start block the data sources watch an address from: the minimum
/// across the data sources that name the address and declare a block
/// handler with a `Call` filter.
pub open spec fn sources_block_get(dss: Seq<DataSource>, a: Address) -> Option<u64>
    decreases dss.len(),
{
    if dss.len() == 0 {
        None
    } else {
        let rest = sources_block_get(dss.drop_last(), a);
        let ds = dss.last();
        if ds.source.address == Some(a) && ds_has_call_block_handler(ds) {
            match rest {
                None => Some(ds.source.start_block),
                Some(sb) => Some(min64(sb, ds.source.start_block)),
            }
        } else {
            rest
        }
    }
}

/// An address occurs in the first `i` entries.
pub open spec fn prefix_has(s: Seq<(u64, Address)>, i: int, a: Address) -> bool {
    exists|l: int| 0 <= l < i && (#[trigger] s[l]).1 == a
}

/// The per-address result of merging two block filters: the union of the
/// watched addresses, each from the smaller start block.
pub open spec fn merged_block_get(
    f1: EthereumBlockFilter,
    f2: EthereumBlockFilter,
    a: Address,
) -> Option<u64> {
    match (f1.spec_get(a), f2.spec_get(a)) {
        (Some(s1), Some(s2)) => Some(min64(s1, s2)),
        (Some(s1), None) => Some(s1),
        (None, Some(s2)) => Some(s2),
        (None, None) => None,
    }
}

proof fn lemma_trigger_every_take_succ(dss: Seq<DataSource>, i: int)
    requires
        0 <= i < dss.len(),
    ensures
        sources_trigger_every(dss.take(i + 1)) == (sources_trigger_every(dss.take(i))
            || ds_has_every_block_handler(dss[i])),
{
    if sources_trigger_every(dss.take(i + 1)) {
        let l = choose|l: int|
            0 <= l < dss.take(i + 1).len() && ds_has_every_block_handler(
                #[trigger] dss.take(i + 1)[l],
            );
        if l < i {
            assert(dss.take(i)[l] == dss.take(i + 1)[l]);
            assert(sources_trigger_every(dss.take(i))) by {
                assert(ds_has_every_block_handler(#[trigger] dss.take(i)[l]));
            }
        } else {
            assert(dss.take(i + 1)[l] == dss[i]);
        }
    }
    if sources_trigger_every(dss.take(i)) {
        let l = choose|l: int|
            0 <= l < dss.take(i).len() && ds_has_every_block_handler(#[trigger] dss.take(i)[l]);
        assert(dss.take(i + 1)[l] == dss.take(i)[l]);
        assert(ds_has_every_block_handler(#[trigger] dss.take(i + 1)[l]));
    }
    if ds_has_every_block_handler(dss[i]) {
        assert(ds_has_every_block_handler(#[trigger] dss.take(i + 1)[i]));
    }
}

} // verus!

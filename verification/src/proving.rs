//! Proof capture: a transparent backend wrapper that records every read
//! into a proof set, and the compact proof encoding.

use vstd::prelude::*;

use crate::memory::{entries_map, entries_uniq, entry_val, Entry};
use crate::store::{PairRep, StoreRep};
use crate::traits::{
    bytes_eq, hash_of_pair, intermediate_of, same_config, Backend, Error, ReadBackend, Value,
    ValueRep, WriteBackend,
};

verus! {

/// A proof map: hash labels to the child pairs a prover read under them.
pub type ProofsRep = Map<Seq<u8>, PairRep>;

/// The descent budget a proof set of the given size justifies.
pub open spec fn compact_fuel(n: nat) -> nat {
    if n < usize::MAX {
        n + 1
    } else {
        usize::MAX as nat
    }
}

/// Whether every entry of a proof map is keyed by the hash of its pair.
/// Every entry a backend read ever returned has this shape.
pub open spec fn hash_consistent(m: ProofsRep) -> bool {
    forall|k: Seq<u8>| #[trigger] m.contains_key(k) ==> k == hash_of_pair(m[k].0, m[k].1)
}

/// The proof map described by recorded entries.
pub(crate) open spec fn proofs_map(s: Seq<Entry>) -> ProofsRep {
    entries_map(s).map_values(|v: (PairRep, Option<nat>)| v.0)
}

/// Type of proofs.
pub struct Proofs {
    pub(crate) entries: Vec<Entry>,
}

impl View for Proofs {
    type V = ProofsRep;

    closed spec fn view(&self) -> ProofsRep {
        proofs_map(self.entries@)
    }
}

impl Proofs {
    /// Whether the recorded entries are well formed.
    pub closed spec fn wf(&self) -> bool {
        entries_uniq(self.entries@)
    }

    /// A fresh, empty proof set.
    pub fn new() -> (r: Self)
        ensures
            r.wf(),
            r@ == Map::<Seq<u8>, PairRep>::empty(),
    {
        let r = Proofs { entries: Vec::new() };
        proof {
            assert(r@ =~= Map::<Seq<u8>, PairRep>::empty());
        }
        r
    }

    /// How many entries the proof set holds.
    pub fn len(&self) -> (r: usize)
        requires
            self.wf(),
        ensures
            r == self@.dom().len(),
    {
        proof {
            crate::memory::lemma_entries_dom_len_pub(self.entries@);
            assert(self@.dom() =~= entries_map(self.entries@).dom());
        }
        self.entries.len()
    }

    /// Whether the proof set holds no entry.
    pub fn is_empty(&self) -> (r: bool)
        requires
            self.wf(),
        ensures
            r == (self@ =~= Map::<Seq<u8>, PairRep>::empty()),
    {
        proof {
            if self.entries@.len() > 0 {
                crate::memory::lemma_map_index_pub(self.entries@, 0);
                assert(self@.contains_key(self.entries@[0].key@));
            } else {
                assert(self@ =~= Map::<Seq<u8>, PairRep>::empty());
            }
        }
        self.entries.len() == 0
    }

    /// The pair recorded under a key, when present.
    pub fn lookup(&self, key: &Vec<u8>) -> (r: Option<(Value, Value)>)
        requires
            self.wf(),
        ensures
            match r {
                Some(pair) => self@.contains_key(key@) && self@[key@] == (pair.0@, pair.1@),
                None => !self@.contains_key(key@),
            },
    {
        proof {
            crate::memory::lemma_map_contains_pub(self.entries@, key@);
        }
        match crate::memory::find_entry(&self.entries, key) {
            Some(i) => {
                proof {
                    crate::memory::lemma_map_index_pub(self.entries@, i as int);
                }
                let pair = &self.entries[i].pair;
                Some((pair.0.clone(), pair.1.clone()))
            },
            None => None,
        }
    }

    /// Record a pair under a key, overwriting an earlier record.
    pub fn record(&mut self, key: Vec<u8>, pair: (Value, Value))
        requires
            old(self).wf(),
        ensures
            final(self).wf(),
            final(self)@ == old(self)@.insert(key@, (pair.0@, pair.1@)),
    {
        proof {
            crate::memory::lemma_map_contains_pub(self.entries@, key@);
        }
        let e = Entry { key, pair, count: None };
        match crate::memory::find_entry(&self.entries, &e.key) {
            Some(i) => {
                proof {
                    crate::memory::lemma_map_update_pub(self.entries@, i as int, e);
                }
                self.entries[i] = e;
                proof {
                    assert(self@ =~= old(self)@.insert(
                        final(self).entries@[i as int].key@,
                        entry_val(final(self).entries@[i as int]).0,
                    ));
                }
            },
            None => {
                proof {
                    crate::memory::lemma_map_push_pub(self.entries@, e);
                }
                self.entries.push(e);
                proof {
                    assert(self@ =~= old(self)@.insert(key@, (pair.0@, pair.1@)));
                }
            },
        }
    }
}

/// A well-formed proof set records pairwise distinct keys.
pub(crate) proof fn lemma_proofs_wf_entries(p: &Proofs)
    requires
        p.wf(),
    ensures
        entries_uniq(p.entries@),
        p@ == proofs_map(p.entries@),
{
}

/// Compact proofs.
pub enum CompactValue {
    /// Single compact value.
    Single(Value),
    /// Value is combined by other left and right entries.
    Combined(Box<(CompactValue, CompactValue)>),
}

/// Mathematical form of a compact proof.
pub enum CompactRep {
    /// A single value.
    Single(ValueRep),
    /// A value combined from a left and a right part.
    Combined(Box<(CompactRep, CompactRep)>),
}

/// The mathematical form of a compact value.
pub open spec fn compact_rep(c: CompactValue) -> CompactRep
    decreases c,
{
    match c {
        CompactValue::Single(v) => CompactRep::Single(v@),
        CompactValue::Combined(b) => CompactRep::Combined(
            Box::new((compact_rep(b.0), compact_rep(b.1))),
        ),
    }
}

impl View for CompactValue {
    type V = CompactRep;

    open spec fn view(&self) -> CompactRep {
        compact_rep(*self)
    }
}

/// The number of leaves of a compact value.
pub open spec fn spec_compact_len(c: CompactRep) -> nat
    decreases c,
{
    match c {
        CompactRep::Single(_) => 1,
        CompactRep::Combined(b) => spec_compact_len(b.0) + spec_compact_len(b.1),
    }
}

/// The root a compact value folds back to: interior nodes hash their
/// children.
pub open spec fn spec_compact_root(c: CompactRep) -> ValueRep
    decreases c,
{
    match c {
        CompactRep::Single(v) => v,
        CompactRep::Combined(b) => ValueRep::Intermediate(
            hash_of_pair(spec_compact_root(b.0), spec_compact_root(b.1)),
        ),
    }
}

/// The proof entries a compact value folds back to.
pub open spec fn spec_compact_proofs(c: CompactRep) -> ProofsRep
    decreases c,
{
    match c {
        CompactRep::Single(_) => Map::empty(),
        CompactRep::Combined(b) => spec_compact_proofs(b.0).union_prefer_right(
            spec_compact_proofs(b.1),
        ).insert(
            hash_of_pair(spec_compact_root(b.0), spec_compact_root(b.1)),
            (spec_compact_root(b.0), spec_compact_root(b.1)),
        ),
    }
}

impl Proofs {
    /// Record every entry of another proof set, the other winning ties.
    fn absorb(&mut self, other: Proofs)
        requires
            old(self).wf(),
            other.wf(),
        ensures
            final(self).wf(),
            final(self)@ == old(self)@.union_prefer_right(other@),
    {
        let n = other.entries.len();
        let mut i: usize = 0;
        proof {
            assert(proofs_map(other.entries@.take(0)) =~= Map::<Seq<u8>, PairRep>::empty());
            assert(self@.union_prefer_right(proofs_map(other.entries@.take(0))) =~= self@);
        }
        while i < n
            invariant
                i <= n,
                n == other.entries@.len(),
                other.wf(),
                self.wf(),
                self@ == old(self)@.union_prefer_right(proofs_map(other.entries@.take(i as int))),
            decreases n - i,
        {
            let e = other.entries[i].duplicate();
            let ghost before = self@;
            proof {
                assert forall|a: int, b: int|
                    0 <= a < b < other.entries@.take(i as int).len() implies other.entries@.take(
                    i as int,
                )[a].key@ != other.entries@.take(i as int)[b].key@ by {
                    assert(other.entries@[a].key@ != other.entries@[b].key@);
                }
                assert forall|a: int|
                    0 <= a < other.entries@.take(i as int).len() implies other.entries@.take(
                    i as int,
                )[a].key@ != other.entries@[i as int].key@ by {
                    assert(other.entries@[a].key@ != other.entries@[i as int].key@);
                }
                crate::memory::lemma_map_push_pub(
                    other.entries@.take(i as int),
                    other.entries@[i as int],
                );
                assert(other.entries@.take(i as int + 1) =~= other.entries@.take(
                    i as int,
                ).push(other.entries@[i as int]));
            }
            let key2 = e.key;
            self.record(key2, e.pair);
            proof {
                assert(proofs_map(other.entries@.take(i as int + 1)) =~= proofs_map(
                    other.entries@.take(i as int),
                ).insert(
                    other.entries@[i as int].key@,
                    entry_val(other.entries@[i as int]).0,
                ));
                assert(self@ =~= old(self)@.union_prefer_right(
                    proofs_map(other.entries@.take(i as int + 1)),
                ));
            }
            i = i + 1;
        }
        proof {
            assert(other.entries@.take(n as int) =~= other.entries@);
        }
    }

    /// Create compact merkle proofs from complete entries.
    pub fn into_compact(&self, root: Value) -> (r: CompactValue)
        requires
            self.wf(),
        ensures
            r@ == spec_into_compact(self@, root@, compact_fuel(self@.dom().len())),
    {
        proof {
            crate::memory::lemma_entries_dom_len_pub(self.entries@);
            assert(self@.dom() =~= entries_map(self.entries@).dom());
        }
        let fuel = if self.entries.len() < usize::MAX {
            self.entries.len() + 1
        } else {
            usize::MAX
        };
        self.into_compact_rec(root, fuel)
    }

    /// Descend into recorded entries with an explicit depth budget.
    fn into_compact_rec(&self, root: Value, fuel: usize) -> (r: CompactValue)
        requires
            self.wf(),
        ensures
            r@ == spec_into_compact(self@, root@, fuel as nat),
        decreases fuel,
    {
        if fuel == 0 {
            return CompactValue::Single(root);
        }
        let pair = match &root {
            Value::End(_) => {
                return CompactValue::Single(root);
            },
            Value::Intermediate(k) => match self.lookup(k) {
                Some(pair) => pair,
                None => {
                    return CompactValue::Single(root);
                },
            },
        };
        let left = self.into_compact_rec(pair.0, fuel - 1);
        let right = self.into_compact_rec(pair.1, fuel - 1);
        CompactValue::Combined(Box::new((left, right)))
    }

    /// Convert the compact value into full proofs, recomputing every
    /// interior hash.
    pub fn from_compact(compact: CompactValue) -> (r: (Proofs, Value))
        ensures
            r.0.wf(),
            r.0@ == spec_compact_proofs(compact@),
            r.1@ == spec_compact_root(compact@),
        decreases compact,
    {
        let ghost crep = compact@;
        match compact {
            CompactValue::Single(v) => {
                let p = Proofs::new();
                proof {
                    assert(p@ =~= spec_compact_proofs(crep));
                }
                (p, v)
            },
            CompactValue::Combined(b) => {
                let inner = *b;
                let (mut lp, lv) = Proofs::from_compact(inner.0);
                let (rp, rv) = Proofs::from_compact(inner.1);
                let key = intermediate_of(&lv, &rv);
                let key2 = key.clone();
                lp.absorb(rp);
                lp.record(key, (lv, rv));
                let out = Value::Intermediate(key2);
                proof {
                    assert(lp@ =~= spec_compact_proofs(crep));
                }
                (lp, out)
            },
        }
    }
}

/// Folding a compact form built from hash-consistent proofs recomputes
/// the root it was built from, whatever the depth budget was; and every
/// entry the fold yields already stood in the proofs.
pub proof fn lemma_compact_round_trip(m: ProofsRep, root: ValueRep, fuel: nat)
    requires
        hash_consistent(m),
    ensures
        spec_compact_root(spec_into_compact(m, root, fuel)) == root,
        spec_compact_proofs(spec_into_compact(m, root, fuel)).submap_of(m),
    decreases fuel,
{
    if fuel > 0 {
        match root {
            ValueRep::End(_) => {
                assert(spec_compact_proofs(spec_into_compact(m, root, fuel)) =~= Map::<
                    Seq<u8>,
                    PairRep,
                >::empty());
            },
            ValueRep::Intermediate(k) => {
                if m.contains_key(k) {
                    lemma_compact_round_trip(m, m[k].0, (fuel - 1) as nat);
                    lemma_compact_round_trip(m, m[k].1, (fuel - 1) as nat);
                    assert(k == hash_of_pair(m[k].0, m[k].1));
                    let c = spec_into_compact(m, root, fuel);
                    let lm = spec_compact_proofs(
                        spec_into_compact(m, m[k].0, (fuel - 1) as nat),
                    );
                    let rm = spec_compact_proofs(
                        spec_into_compact(m, m[k].1, (fuel - 1) as nat),
                    );
                    assert forall|x: Seq<u8>|
                        #[trigger] spec_compact_proofs(c).contains_key(x) implies m.contains_key(
                        x,
                    ) && spec_compact_proofs(c)[x] == m[x] by {
                        assert(spec_compact_proofs(c) == lm.union_prefer_right(rm).insert(
                            k,
                            (m[k].0, m[k].1),
                        ));
                        if x == k {
                            assert(m[k] == (m[k].0, m[k].1));
                        } else if rm.contains_key(x) {
                            assert(rm.submap_of(m));
                            assert(m.contains_key(x) && rm[x] == m[x]);
                        } else {
                            assert(lm.contains_key(x));
                            assert(lm.submap_of(m));
                            assert(m.contains_key(x) && lm[x] == m[x]);
                        }
                    }
                } else {
                    assert(spec_compact_proofs(spec_into_compact(m, root, fuel)) =~= Map::<
                        Seq<u8>,
                        PairRep,
                    >::empty());
                }
            },
        }
    } else {
        assert(spec_compact_proofs(spec_into_compact(m, root, fuel)) =~= Map::<
            Seq<u8>,
            PairRep,
        >::empty());
    }
}

/// A backend populated with captured proofs answers every captured read
/// with the recorded pair: replaying the reads of a proving session
/// succeeds with identical values.
pub proof fn lemma_proofs_replay(s: StoreRep, p: ProofsRep, key: Seq<u8>)
    requires
        p.contains_key(key),
    ensures
        s.union_prefer_right(p.map_values(|pr: PairRep| (pr, None::<nat>))).contains_key(key),
        s.union_prefer_right(p.map_values(|pr: PairRep| (pr, None::<nat>)))[key].0 == p[key],
{
}

impl CompactValue {
    /// Get the length of the current value.
    pub fn len(&self) -> (r: usize)
        requires
            spec_compact_len(self@) <= usize::MAX,
        ensures
            r == spec_compact_len(self@),
        decreases self,
    {
        match self {
            CompactValue::Single(_) => 1,
            CompactValue::Combined(b) => {
                let l = b.0.len();
                let r = b.1.len();
                l + r
            },
        }
    }

    /// Get the root value of the compact, recomputing interior hashes.
    pub fn root(&self) -> (r: Value)
        ensures
            r@ == spec_compact_root(self@),
        decreases self,
    {
        match self {
            CompactValue::Single(v) => v.clone(),
            CompactValue::Combined(b) => {
                let l = b.0.root();
                let r = b.1.root();
                Value::Intermediate(intermediate_of(&l, &r))
            },
        }
    }
}

/// Folding a leaf up a route: each proof fills the sibling of the current
/// subtree, deepest first.
pub open spec fn spec_from_plain(
    cur: CompactRep,
    proofs: Seq<ValueRep>,
    route: Seq<crate::index::MerkleSelection>,
) -> Option<CompactRep>
    decreases route.len(),
{
    if route.len() == 0 {
        if proofs.len() == 0 {
            Some(cur)
        } else {
            None
        }
    } else if proofs.len() == 0 {
        None
    } else {
        let next = match route.last() {
            crate::index::MerkleSelection::Left => CompactRep::Combined(
                Box::new((cur, CompactRep::Single(proofs[0]))),
            ),
            crate::index::MerkleSelection::Right => CompactRep::Combined(
                Box::new((CompactRep::Single(proofs[0]), cur)),
            ),
        };
        spec_from_plain(next, proofs.drop_first(), route.drop_last())
    }
}

impl CompactValue {
    /// Convert from a plain proof: the leaf, the sibling values from the
    /// deepest level up, and the leaf's generalized index.
    #[verifier::loop_isolation(false)]
    pub fn from_plain(leaf: Value, proofs: Vec<Value>, index: crate::index::MerkleIndex) -> (r:
        Option<CompactValue>)
        requires
            index@ >= 1,
        ensures
            ({
                let folded = spec_from_plain(
                    CompactRep::Single(leaf@),
                    crate::utils::values_rep(proofs@),
                    crate::index::route_of(index@),
                );
                match r {
                    Some(c) => folded == Some(c@),
                    None => folded is None,
                }
            }),
    {
        let sels = index.route_selections();
        let mut current = CompactValue::Single(leaf);
        let mut pi: usize = 0;
        let mut si: usize = sels.len();
        proof {
            assert(crate::utils::values_rep(proofs@).skip(0) =~= crate::utils::values_rep(
                proofs@,
            ));
            assert(sels@.take(sels@.len() as int) =~= sels@);
        }
        while si > 0
            invariant
                si <= sels@.len(),
                pi <= proofs@.len(),
                spec_from_plain(
                    CompactRep::Single(leaf@),
                    crate::utils::values_rep(proofs@),
                    sels@,
                ) == spec_from_plain(
                    current@,
                    crate::utils::values_rep(proofs@).skip(pi as int),
                    sels@.take(si as int),
                ),
            decreases si,
        {
            if pi >= proofs.len() {
                proof {
                    assert(crate::utils::values_rep(proofs@).skip(pi as int).len() == 0);
                }
                return None;
            }
            let ghost vr = crate::utils::values_rep(proofs@);
            let ghost oldc = current;
            let ghost oc = current@;
            proof {
                assert(vr.skip(pi as int).len() > 0);
                assert(vr[pi as int] == proofs@[pi as int]@);
                assert(vr.skip(pi as int)[0] == vr[pi as int]);
                assert(vr.skip(pi as int).drop_first() =~= vr.skip(pi as int + 1));
                assert(sels@.take(si as int).last() == sels@[si as int - 1]);
                assert(sels@.take(si as int).drop_last() =~= sels@.take(si as int - 1));
            }
            let p = proofs[pi].clone();
            let ghost pv = p;
            current = match sels[si - 1] {
                crate::index::MerkleSelection::Left => CompactValue::Combined(
                    Box::new((current, CompactValue::Single(p))),
                ),
                crate::index::MerkleSelection::Right => CompactValue::Combined(
                    Box::new((CompactValue::Single(p), current)),
                ),
            };
            proof {
                assert(pv@ == vr[pi as int]);
                match sels@[si as int - 1] {
                    crate::index::MerkleSelection::Left => {
                        assert(current == CompactValue::Combined(
                            Box::new((oldc, CompactValue::Single(pv))),
                        ));
                        assert(compact_rep(current) == CompactRep::Combined(
                            Box::new((compact_rep(oldc), compact_rep(CompactValue::Single(pv)))),
                        ));
                        assert(current@ == CompactRep::Combined(
                            Box::new((oc, CompactRep::Single(pv@))),
                        ));
                    },
                    crate::index::MerkleSelection::Right => {
                        assert(current == CompactValue::Combined(
                            Box::new((CompactValue::Single(pv), oldc)),
                        ));
                        assert(compact_rep(current) == CompactRep::Combined(
                            Box::new((compact_rep(CompactValue::Single(pv)), compact_rep(oldc))),
                        ));
                        assert(current@ == CompactRep::Combined(
                            Box::new((CompactRep::Single(pv@), oc)),
                        ));
                    },
                }
                let next = (match sels@[si as int - 1] {
                    crate::index::MerkleSelection::Left => CompactRep::Combined(
                        Box::new((oc, CompactRep::Single(vr[pi as int]))),
                    ),
                    crate::index::MerkleSelection::Right => CompactRep::Combined(
                        Box::new((CompactRep::Single(vr[pi as int]), oc)),
                    ),
                });
                assert(current@ == next);
                assert(spec_from_plain(oc, vr.skip(pi as int), sels@.take(si as int))
                    == spec_from_plain(next, vr.skip(pi as int + 1), sels@.take(si as int - 1)));
            }
            pi = pi + 1;
            si = si - 1;
        }
        if pi < proofs.len() {
            proof {
                assert(sels@.take(0) =~= Seq::<crate::index::MerkleSelection>::empty());
                assert(crate::utils::values_rep(proofs@).skip(pi as int).len() > 0);
            }
            return None;
        }
        proof {
            assert(sels@.take(0) =~= Seq::<crate::index::MerkleSelection>::empty());
            assert(crate::utils::values_rep(proofs@).skip(pi as int).len() == 0);
        }
        Some(current)
    }
}

/// Proving state.
pub struct ProvingState {
    /// Proofs required for operations.
    pub proofs: Proofs,
    /// Keys written during this session, whose reads are not recorded.
    pub inserts: Vec<Vec<u8>>,
}

impl ProvingState {
    /// A fresh, empty proving state.
    pub fn new() -> (r: Self)
        ensures
            r.proofs.wf(),
            r.proofs@ == Map::<Seq<u8>, PairRep>::empty(),
            r.inserts@.len() == 0,
    {
        ProvingState { proofs: Proofs::new(), inserts: Vec::new() }
    }
}

/// Whether a key was written during the session described by `inserts`.
pub open spec fn spec_inserted(inserts: Seq<Vec<u8>>, k: Seq<u8>) -> bool {
    exists|i: int| 0 <= i < inserts.len() && inserts[i]@ == k
}

/// Proving merkle database: a wrapper that records every read whose key
/// was not written during the session.
pub struct ProvingBackend<DB: Backend> {
    db: DB,
    state: ProvingState,
}

impl<DB: Backend> Backend for ProvingBackend<DB> {
    type Error = DB::Error;

    closed spec fn store(&self) -> StoreRep {
        self.db.store()
    }

    closed spec fn is_noop(&self) -> bool {
        self.db.is_noop()
    }

    closed spec fn unit_policy(&self) -> bool {
        self.db.unit_policy()
    }

    closed spec fn empty_end(&self) -> Seq<u8> {
        self.db.empty_end()
    }

    closed spec fn wf(&self) -> bool {
        self.db.wf() && self.state.proofs.wf()
    }

    proof fn wf_finite(&self) {
        self.db.wf_finite();
    }

    proof fn noop_unreadable(&self) {
        self.db.noop_unreadable();
    }
}

impl<DB: Backend> ProvingBackend<DB> {
    /// The proofs recorded so far.
    pub closed spec fn proofs_rep(&self) -> ProofsRep {
        self.state.proofs@
    }

    /// Whether a key was written during this session.
    pub closed spec fn inserted(&self, k: Seq<u8>) -> bool {
        spec_inserted(self.state.inserts@, k)
    }

    /// Create a new proving database around a backend.
    pub fn new(db: DB) -> (r: Self)
        requires
            db.wf(),
        ensures
            r.wf(),
            r.store() == db.store(),
            r.is_noop() == db.is_noop(),
            r.unit_policy() == db.unit_policy(),
            r.empty_end() == db.empty_end(),
            r.proofs_rep() == Map::<Seq<u8>, PairRep>::empty(),
            forall|k: Seq<u8>| !r.inserted(k),
    {
        ProvingBackend { db, state: ProvingState::new() }
    }

    /// From proving state.
    pub fn from_state(state: ProvingState, db: DB) -> (r: Self)
        requires
            db.wf(),
            state.proofs.wf(),
        ensures
            r.wf(),
            r.store() == db.store(),
            r.is_noop() == db.is_noop(),
            r.unit_policy() == db.unit_policy(),
            r.empty_end() == db.empty_end(),
            r.proofs_rep() == state.proofs@,
    {
        ProvingBackend { db, state }
    }

    /// Into proving state.
    pub fn into_state(self) -> (r: ProvingState)
        requires
            self.wf(),
        ensures
            r.proofs.wf(),
            r.proofs@ == self.proofs_rep(),
    {
        self.state
    }

    /// Give the wrapped backend back.
    pub fn into_inner(self) -> (r: DB)
        requires
            self.wf(),
        ensures
            r.wf(),
            r.store() == self.store(),
            r.is_noop() == self.is_noop(),
            r.unit_policy() == self.unit_policy(),
            r.empty_end() == self.empty_end(),
    {
        self.db
    }

    /// Take the proofs recorded so far and start a fresh session.
    pub fn reset(&mut self) -> (r: Proofs)
        requires
            old(self).wf(),
        ensures
            final(self).wf(),
            final(self).store() == old(self).store(),
            same_config(final(self), old(self)),
            final(self).is_noop() == old(self).is_noop(),
            r.wf(),
            r@ == old(self).proofs_rep(),
            final(self).proofs_rep() == Map::<Seq<u8>, PairRep>::empty(),
            forall|k: Seq<u8>| !final(self).inserted(k),
    {
        let mut out = Proofs::new();
        core::mem::swap(&mut out, &mut self.state.proofs);
        self.state.inserts = Vec::new();
        out
    }

    /// Whether the session wrote the given key.
    fn contains_insert(&self, key: &Vec<u8>) -> (r: bool)
        ensures
            r == self.inserted(key@),
    {
        let n = self.state.inserts.len();
        let mut i: usize = 0;
        while i < n
            invariant
                n == self.state.inserts@.len(),
                i <= n,
                forall|j: int| 0 <= j < i ==> self.state.inserts@[j]@ != key@,
            decreases n - i,
        {
            if bytes_eq(&self.state.inserts[i], key) {
                return true;
            }
            i = i + 1;
        }
        false
    }
}

impl<DB: ReadBackend> ReadBackend for ProvingBackend<DB> {
    fn get(&mut self, key: &Vec<u8>) -> (r: Result<(Value, Value), DB::Error>)
        ensures
            final(self).proofs_rep() == (match r {
                Ok(_) => if !old(self).inserted(key@) {
                    old(self).proofs_rep().insert(key@, old(self).store()[key@].0)
                } else {
                    old(self).proofs_rep()
                },
                Err(_) => old(self).proofs_rep(),
            }),
            forall|k: Seq<u8>| final(self).inserted(k) == old(self).inserted(k),
    {
        let pair = match self.db.get(key) {
            Ok(pair) => pair,
            Err(e) => {
                return Err(e);
            },
        };
        if !self.contains_insert(key) {
            let key2 = key.clone();
            self.state.proofs.record(key2, (pair.0.clone(), pair.1.clone()));
        }
        Ok(pair)
    }
}

impl<DB: WriteBackend> WriteBackend for ProvingBackend<DB> {
    fn rootify(&mut self, key: &Vec<u8>) -> (r: Result<(), DB::Error>)
        ensures
            final(self).proofs_rep() == old(self).proofs_rep(),
            forall|k: Seq<u8>| final(self).inserted(k) == old(self).inserted(k),
    {
        self.db.rootify(key)
    }

    fn unrootify(&mut self, key: &Vec<u8>) -> (r: Result<(), DB::Error>)
        ensures
            final(self).proofs_rep() == old(self).proofs_rep(),
            forall|k: Seq<u8>| final(self).inserted(k) == old(self).inserted(k),
    {
        self.db.unrootify(key)
    }

    fn insert(&mut self, key: Vec<u8>, value: (Value, Value)) -> (r: Result<(), DB::Error>)
        ensures
            final(self).proofs_rep() == old(self).proofs_rep(),
            forall|k: Seq<u8>|
                final(self).inserted(k) == (old(self).inserted(k) || k == key@),
    {
        let key2 = key.clone();
        let ghost before = self.state.inserts@;
        self.state.inserts.push(key2);
        proof {
            assert forall|k: Seq<u8>|
                spec_inserted(self.state.inserts@, k) == (spec_inserted(before, k) || k
                    == key@) by {
                if spec_inserted(self.state.inserts@, k) {
                    let i = choose|i: int|
                        0 <= i < self.state.inserts@.len() && self.state.inserts@[i]@ == k;
                    if i < before.len() {
                        assert(spec_inserted(before, k));
                    }
                } else {
                    if spec_inserted(before, k) {
                        let i = choose|i: int| 0 <= i < before.len() && before[i]@ == k;
                        assert(self.state.inserts@[i]@ == k);
                    }
                    if k == key@ {
                        assert(self.state.inserts@[before.len() as int]@ == k);
                    }
                }
            }
        }
        self.db.insert(key, value)
    }

    fn empty_at(&mut self, depth_to_bottom: usize) -> (r: Result<Value, DB::Error>)
        ensures
            final(self).proofs_rep() == old(self).proofs_rep(),
    {
        self.db.empty_at(depth_to_bottom)
    }
}


/// Proofs recorded out of a hash-consistent store are hash-consistent:
/// every recorded pair is the store's pair under its key, and the
/// library's own writes key every entry by its hash.  This discharges the
/// hypothesis of `lemma_compact_round_trip` for captures over stores
/// built by tree operations.
pub proof fn lemma_recorded_proofs_consistent(s: StoreRep, p: ProofsRep)
    requires
        crate::store::store_hash_consistent(s),
        forall|k: Seq<u8>| #[trigger] p.contains_key(k) ==> s.contains_key(k) && p[k]
            == s[k].0,
    ensures
        hash_consistent(p),
{
}

/// Recording one pair under its own hash keeps a proof set
/// hash-consistent.
pub proof fn lemma_record_consistent(p: ProofsRep, key: Seq<u8>, pair: PairRep)
    requires
        hash_consistent(p),
        key == hash_of_pair(pair.0, pair.1),
    ensures
        hash_consistent(p.insert(key, pair)),
{
}

/// The compact form of a root under a proof map, descending while the
/// label is recorded and the depth budget lasts.
pub open spec fn spec_into_compact(m: ProofsRep, root: ValueRep, fuel: nat) -> CompactRep
    decreases fuel,
{
    if fuel == 0 {
        CompactRep::Single(root)
    } else {
        match root {
            ValueRep::End(_) => CompactRep::Single(root),
            ValueRep::Intermediate(k) => if m.contains_key(k) {
                CompactRep::Combined(
                    Box::new(
                        (
                            spec_into_compact(m, m[k].0, (fuel - 1) as nat),
                            spec_into_compact(m, m[k].1, (fuel - 1) as nat),
                        ),
                    ),
                )
            } else {
                CompactRep::Single(root)
            },
        }
    }
}

} // verus!

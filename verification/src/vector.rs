//! Fixed-length merkle vectors with elastic or bounded capacity.

use vstd::prelude::*;

use core::marker::PhantomData;

use crate::index::{route_of, MerkleIndex};
use crate::raw::{spec_get, spec_raw_set, Raw};
use crate::store::{StoreRep};
use crate::traits::{
    db_config, same_config, Backend, DbConfig, Error, Leak, RootStatus, Sequence, Tree, Value,
    ValueRep, WriteBackend,
};

verus! {

/// Two to the given power.
pub open spec fn pow2(d: nat) -> nat
    decreases d,
{
    if d == 0 {
        1
    } else {
        2 * pow2((d - 1) as nat)
    }
}

/// The smallest power of two that holds `l` items (at least one).
pub open spec fn next_pow2(l: nat) -> nat
    decreases l,
{
    if l <= 1 {
        1
    } else {
        2 * next_pow2(((l + 1) / 2) as nat)
    }
}

/// The depth of the smallest power-of-two tree that holds `l` items.
pub open spec fn depth_for(l: nat) -> nat
    decreases l,
{
    if l <= 1 {
        0
    } else {
        1 + depth_for(((l + 1) / 2) as nat)
    }
}

pub proof fn lemma_pow2_pos(d: nat)
    ensures
        pow2(d) >= 1,
    decreases d,
{
    if d > 0 {
        lemma_pow2_pos((d - 1) as nat);
    }
}

pub proof fn lemma_pow2_mono(a: nat, b: nat)
    requires
        a <= b,
    ensures
        pow2(a) <= pow2(b),
    decreases b,
{
    if a < b && b > 0 {
        lemma_pow2_mono(a, (b - 1) as nat);
        lemma_pow2_pos((b - 1) as nat);
    }
}

/// `next_pow2` agrees with two to the `depth_for` power.
pub proof fn lemma_next_pow2_eq(l: nat)
    ensures
        next_pow2(l) == pow2(depth_for(l)),
    decreases l,
{
    if l > 1 {
        lemma_next_pow2_eq(((l + 1) / 2) as nat);
    }
}

/// The capacity holds the length and is positive.
pub proof fn lemma_next_pow2_ge(l: nat)
    ensures
        next_pow2(l) >= l,
        next_pow2(l) >= 1,
    decreases l,
{
    if l > 1 {
        lemma_next_pow2_ge(((l + 1) / 2) as nat);
    }
}

/// The capacity at most doubles the length.
pub proof fn lemma_next_pow2_le(l: nat)
    requires
        l >= 1,
    ensures
        next_pow2(l) <= 2 * l,
        l >= 2 ==> next_pow2(l) <= 2 * (l - 1),
    decreases l,
{
    if l > 1 {
        lemma_next_pow2_le(((l + 1) / 2) as nat);
    }
}

/// Any power of two at least `l` is at least the next power of two of `l`.
pub proof fn lemma_next_pow2_min(l: nat, d: nat)
    requires
        pow2(d) >= l,
    ensures
        pow2(d) >= next_pow2(l),
    decreases d,
{
    if l > 1 {
        lemma_pow2_pos(d);
        assert(d >= 1) by {
            if d == 0 {
                assert(pow2(d) == 1);
            }
        }
        lemma_next_pow2_min(((l + 1) / 2) as nat, (d - 1) as nat);
    } else {
        lemma_pow2_pos(d);
    }
}

/// The mathematical content of a vector: its tree root, semantic length,
/// and fixed bound, if any.
pub struct VectorRep {
    /// Root of the raw tree.
    pub root: ValueRep,
    /// Semantic length.
    pub len: nat,
    /// Fixed maximum length, when the capacity is bounded.
    pub max_len: Option<nat>,
}

/// The current capacity: the fixed bound, or the smallest power of two
/// holding the length.
pub open spec fn cml(len: nat, max_len: Option<nat>) -> nat {
    match max_len {
        Some(m) => m,
        None => next_pow2(len),
    }
}

/// Machine bounds under which index arithmetic of a vector cannot
/// overflow.
pub open spec fn vector_wf(v: VectorRep) -> bool {
    &&& v.len <= usize::MAX / 8
    &&& match v.max_len {
        Some(m) => v.len <= m && 1 <= m <= usize::MAX / 8
        ,
        None => true,
    }
}

/// The store and result of asking a backend for the empty subtree at a
/// given depth.
pub open spec fn spec_empty_at(s: StoreRep, depth: nat, c: DbConfig) -> (StoreRep, ValueRep) {
    (
        if c.noop || c.unit {
            s
        } else {
            crate::store::empty_chain_store(s, depth, c.end)
        },
        crate::store::empty_root(depth, c.unit, c.end),
    )
}

/// Extending a full vector: wrap the old root as the left child of a fresh
/// tree whose right child is the same-depth empty, then blank the old tree.
/// On failure the vector is unchanged and the store keeps the partial
/// writes.
pub open spec fn spec_extend(s: StoreRep, v: VectorRep, owned: bool, c: DbConfig) -> (
    StoreRep,
    VectorRep,
    bool,
) {
    let d = depth_for(cml(v.len, v.max_len));
    let e = spec_empty_at(s, d, c);
    let o1 = spec_raw_set(e.0, ValueRep::End(Seq::empty()), 2, v.root, owned, c.noop, c.end);
    if !o1.2 {
        (o1.0, v, false)
    } else {
        let o2 = spec_raw_set(o1.0, o1.1, 3, e.1, owned, c.noop, c.end);
        if !o2.2 {
            (o2.0, v, false)
        } else {
            let o3 = spec_raw_set(
                o2.0,
                v.root,
                1,
                ValueRep::End(Seq::empty()),
                owned,
                c.noop,
                c.end,
            );
            if !o3.2 {
                (o3.0, v, false)
            } else {
                (o3.0, VectorRep { root: o2.1, len: v.len, max_len: v.max_len }, true)
            }
        }
    }
}

/// Shrinking a half-empty vector: promote the left child of the root (or a
/// blank leaf when the walk meets a leaf early) to be the new root.
pub open spec fn spec_shrink(s: StoreRep, v: VectorRep, owned: bool, c: DbConfig) -> (
    StoreRep,
    VectorRep,
    bool,
) {
    let got = spec_get(s, v.root, route_of(2));
    match got {
        None => (s, v, false),
        Some(opt) => {
            let newroot = match opt {
                Some(x) => x,
                None => ValueRep::End(Seq::empty()),
            };
            let o = spec_raw_set(s, v.root, 1, newroot, owned, c.noop, c.end);
            (o.0, VectorRep { root: o.1, len: v.len, max_len: v.max_len }, o.2)
        },
    }
}

/// Setting position `i`: a raw write of an end leaf at the generalized
/// index `capacity + i`.
pub open spec fn spec_vector_set(
    s: StoreRep,
    v: VectorRep,
    i: nat,
    value: Seq<u8>,
    owned: bool,
    c: DbConfig,
) -> (StoreRep, VectorRep, bool) {
    let idx = cml(v.len, v.max_len) + i;
    let o = spec_raw_set(s, v.root, idx, ValueRep::End(value), owned, c.noop, c.end);
    (o.0, VectorRep { root: o.1, len: v.len, max_len: v.max_len }, o.2)
}

/// Pushing a value: extend when the capacity is exhausted and elastic,
/// then write the new last position.
pub open spec fn spec_vector_push(
    s: StoreRep,
    v: VectorRep,
    value: Seq<u8>,
    owned: bool,
    c: DbConfig,
) -> (StoreRep, VectorRep, bool) {
    if v.len == cml(v.len, v.max_len) && v.max_len is Some {
        (s, v, false)
    } else {
        spec_vector_push_grow(s, v, value, owned, c)
    }
}

/// Pushing into a vector whose bound leaves room: extend when the elastic
/// capacity is exhausted, then write the new last position.
pub open spec fn spec_vector_push_grow(
    s: StoreRep,
    v: VectorRep,
    value: Seq<u8>,
    owned: bool,
    c: DbConfig,
) -> (StoreRep, VectorRep, bool) {
    let ext = if v.len == cml(v.len, v.max_len) {
        spec_extend(s, v, owned, c)
    } else {
        (s, v, true)
    };
    if !ext.2 {
        (ext.0, v, false)
    } else {
        let v1 = VectorRep { root: ext.1.root, len: v.len + 1, max_len: v.max_len };
        let o = spec_vector_set(ext.0, v1, v.len, value, owned, c);
        (o.0, o.1, o.2)
    }
}

/// The position a pop blanks, and the empty depth planted there: from the
/// vacated slot, walk up while the position is a left child.
pub open spec fn pop_replace(idx: nat) -> (nat, nat)
    decreases idx,
{
    if idx <= 1 || idx % 2 == 1 {
        (idx, 0)
    } else {
        let up = pop_replace(idx / 2);
        (up.0, up.1 + 1)
    }
}

/// Popping the last value: read it, blank the vacated left-child chain
/// with the matching empty subtree, and shrink when half the capacity is
/// unused and the capacity is elastic.  Components: store, vector, success,
/// popped bytes.
pub open spec fn spec_vector_pop(s: StoreRep, v: VectorRep, owned: bool, c: DbConfig) -> (
    StoreRep,
    VectorRep,
    bool,
    Option<Seq<u8>>,
) {
    if v.len == 0 {
        (s, v, true, None)
    } else {
        let c0 = cml(v.len, v.max_len);
        let idx = (c0 + v.len - 1) as nat;
        match spec_get(s, v.root, route_of(idx)) {
            None => (s, v, false, None),
            Some(None) => (s, v, false, None),
            Some(Some(ValueRep::Intermediate(_))) => (s, v, false, None),
            Some(Some(ValueRep::End(bytes))) => {
                let up = pop_replace(idx);
                let e = spec_empty_at(s, up.1, c);
                let o = spec_raw_set(e.0, v.root, up.0, e.1, owned, c.noop, c.end);
                if !o.2 {
                    (o.0, v, false, None)
                } else {
                    let v1 = VectorRep { root: o.1, len: v.len, max_len: v.max_len };
                    let newlen = (v.len - 1) as nat;
                    if newlen <= c0 / 2 && v.max_len is None {
                        let sh = spec_shrink(o.0, v1, owned, c);
                        if sh.2 {
                            (
                                sh.0,
                                VectorRep { root: sh.1.root, len: newlen, max_len: v.max_len },
                                true,
                                Some(bytes),
                            )
                        } else {
                            (sh.0, sh.1, false, None)
                        }
                    } else {
                        (
                            o.0,
                            VectorRep { root: o.1, len: newlen, max_len: v.max_len },
                            true,
                            Some(bytes),
                        )
                    }
                }
            },
        }
    }
}

/// Creating a vector: write the empty subtree that covers the target
/// capacity as the root of a fresh tree.
pub open spec fn spec_vector_create(
    s: StoreRep,
    len: nat,
    max_len: Option<nat>,
    owned: bool,
    c: DbConfig,
) -> (StoreRep, VectorRep, bool) {
    let target = match max_len {
        Some(m) => m,
        None => len,
    };
    let d = depth_for(target);
    let e = spec_empty_at(s, d, c);
    let o = spec_raw_set(e.0, ValueRep::End(Seq::empty()), 1, e.1, owned, c.noop, c.end);
    (o.0, VectorRep { root: o.1, len, max_len }, o.2)
}

/// `Vector` with owned root.
pub type OwnedVector = Vector<crate::traits::Owned>;

/// `Vector` with dangling root.
pub type DanglingVector = Vector<crate::traits::Dangling>;

/// Binary merkle vector of end values with fixed semantic length.
pub struct Vector<R: RootStatus> {
    raw: Raw<R>,
    max_len: Option<usize>,
    len: usize,
}

impl<R: RootStatus> View for Vector<R> {
    type V = VectorRep;

    closed spec fn view(&self) -> VectorRep {
        VectorRep {
            root: self.raw@,
            len: self.len as nat,
            max_len: match self.max_len {
                Some(m) => Some(m as nat),
                None => None,
            },
        }
    }
}

impl<R: RootStatus> Vector<R> {
    /// Current maximum length of the vector.
    pub fn current_max_len(&self) -> (r: usize)
        requires
            vector_wf(self@),
        ensures
            r == cml(self@.len, self@.max_len),
    {
        match self.max_len {
            Some(m) => m,
            None => next_pow2_len(self.len),
        }
    }

    /// Overall maximum length of the vector.
    pub fn max_len(&self) -> (r: Option<usize>)
        ensures
            r matches Some(m) ==> self@.max_len == Some(m as nat),
            r is None ==> self@.max_len is None,
    {
        self.max_len
    }

    /// Depth of the vector.
    pub fn depth(&self) -> (r: usize)
        requires
            vector_wf(self@),
        ensures
            r == depth_for(cml(self@.len, self@.max_len)),
    {
        proof {
            if self@.max_len is None && self@.len >= 1 {
                lemma_next_pow2_le(self@.len);
            }
            lemma_next_pow2_ge(self@.len);
        }
        let target = self.current_max_len();
        depth_of_len(target)
    }

    /// The generalized index of position `i` under the current capacity.
    fn raw_index(&self, i: usize) -> (r: MerkleIndex)
        requires
            vector_wf(self@),
            i <= self@.len,
        ensures
            r@ >= 1,
            r@ == cml(self@.len, self@.max_len) + i,
    {
        proof {
            lemma_next_pow2_ge(self@.len);
            if self@.max_len is None {
                lemma_next_pow2_le(if self@.len == 0 {
                    1
                } else {
                    self@.len
                });
            }
        }
        let base = self.current_max_len();
        match MerkleIndex::from_one(base + i) {
            Some(idx) => idx,
            None => {
                proof {
                    assert(false);
                }
                MerkleIndex::root()
            },
        }
    }

    /// Get value at index.
    pub fn get<DB: WriteBackend>(&self, db: &mut DB, index: usize) -> (r: Result<
        Vec<u8>,
        Error<DB::Error>,
    >)
        requires
            old(db).wf(),
            vector_wf(self@),
        ensures
            final(db).wf(),
            same_config(final(db), old(db)),
            final(db).store() == old(db).store(),
            ({
                let got = spec_get(
                    old(db).store(),
                    self@.root,
                    route_of((cml(self@.len, self@.max_len) + index) as nat),
                );
                match r {
                    Ok(bytes) => index < self@.len && got == Some(
                        Some(ValueRep::End(bytes@)),
                    ),
                    Err(Error::AccessOverflowed) => index >= self@.len,
                    Err(Error::CorruptedDatabase) => index < self@.len && (got == Some(
                        None::<ValueRep>,
                    ) || got matches Some(Some(ValueRep::Intermediate(_)))),
                    Err(Error::Backend(_)) => index < self@.len && got is None,
                    Err(Error::InvalidParameter) => false,
                }
            }),
    {
        if index >= self.len {
            return Err(Error::AccessOverflowed);
        }
        let raw_index = self.raw_index(index);
        let found = match self.raw.get(db, raw_index) {
            Ok(found) => found,
            Err(Error::Backend(e)) => {
                return Err(Error::Backend(e));
            },
            Err(_) => {
                proof {
                    assert(false);
                }
                return Err(Error::CorruptedDatabase);
            },
        };
        match found {
            Some(value) => match value {
                Value::End(bytes) => Ok(bytes),
                Value::Intermediate(_) => Err(Error::CorruptedDatabase),
            },
            None => Err(Error::CorruptedDatabase),
        }
    }

    /// Set value at index.
    pub fn set<DB: WriteBackend>(&mut self, db: &mut DB, index: usize, value: Vec<u8>) -> (r:
        Result<(), Error<DB::Error>>)
        requires
            old(db).wf(),
            vector_wf(old(self)@),
        ensures
            final(db).wf(),
            same_config(final(db), old(db)),
            vector_wf(final(self)@),
            ({
                let o = spec_vector_set(
                    old(db).store(),
                    old(self)@,
                    index as nat,
                    value@,
                    !R::dangling(),
                    db_config(old(db)),
                );
                if index >= old(self)@.len {
                    r == Err::<(), Error<DB::Error>>(Error::AccessOverflowed) && final(self)@
                        == old(self)@ && final(db).store() == old(db).store()
                } else {
                    final(db).store() == o.0 && final(self)@ == o.1 && (r is Ok) == o.2
                }
            }),
    {
        if index >= self.len {
            return Err(Error::AccessOverflowed);
        }
        let raw_index = self.raw_index(index);
        match self.raw.set(db, raw_index, Value::End(value)) {
            Ok(_) => Ok(()),
            Err(e) => Err(e),
        }
    }

    /// Push a new value to the vector.
    pub fn push<DB: WriteBackend>(&mut self, db: &mut DB, value: Vec<u8>) -> (r: Result<
        (),
        Error<DB::Error>,
    >)
        requires
            old(db).wf(),
            vector_wf(old(self)@),
            old(self)@.len < usize::MAX / 8,
        ensures
            final(db).wf(),
            same_config(final(db), old(db)),
            vector_wf(final(self)@),
            ({
                let full = old(self)@.len == cml(old(self)@.len, old(self)@.max_len);
                if full && old(self)@.max_len is Some {
                    r == Err::<(), Error<DB::Error>>(Error::AccessOverflowed) && final(self)@
                        == old(self)@ && final(db).store() == old(db).store()
                } else {
                    let o = spec_vector_push(
                        old(db).store(),
                        old(self)@,
                        value@,
                        !R::dangling(),
                        db_config(old(db)),
                    );
                    final(db).store() == o.0 && final(self)@ == o.1 && (r is Ok) == o.2
                }
            }),
    {
        let old_len = self.len;
        let full = old_len == self.current_max_len();
        if full {
            if self.max_len.is_some() {
                return Err(Error::AccessOverflowed);
            }
            match self.extend(db) {
                Ok(_) => {},
                Err(e) => {
                    return Err(e);
                },
            }
        }
        self.len = old_len + 1;
        let raw_index = self.raw_index(old_len);
        match self.raw.set(db, raw_index, Value::End(value)) {
            Ok(_) => Ok(()),
            Err(e) => Err(e),
        }
    }

    /// Wrap the full tree one level deeper, leaving the new right half
    /// empty.
    fn extend<DB: WriteBackend>(&mut self, db: &mut DB) -> (r: Result<(), Error<DB::Error>>)
        requires
            old(db).wf(),
            vector_wf(old(self)@),
        ensures
            final(db).wf(),
            same_config(final(db), old(db)),
            ({
                let o = spec_extend(
                    old(db).store(),
                    old(self)@,
                    !R::dangling(),
                    db_config(old(db)),
                );
                final(db).store() == o.0 && final(self)@ == o.1 && (r is Ok) == o.2
            }),
    {
        let root = self.raw.root();
        let mut new_raw = Raw::<R>::default();
        let depth = self.depth();
        let empty = match db.empty_at(depth) {
            Ok(v) => v,
            Err(e) => {
                proof {
                    assert(false);
                }
                return Err(Error::Backend(e));
            },
        };
        match new_raw.set(db, MerkleIndex::root().left(), root) {
            Ok(_) => {},
            Err(e) => {
                return Err(e);
            },
        }
        match new_raw.set(db, MerkleIndex::root().right(), empty) {
            Ok(_) => {},
            Err(e) => {
                return Err(e);
            },
        }
        let blank: Vec<u8> = Vec::new();
        proof {
            assert(blank@ =~= Seq::<u8>::empty());
        }
        match self.raw.set(db, MerkleIndex::root(), Value::End(blank)) {
            Ok(_) => {},
            Err(e) => {
                return Err(e);
            },
        }
        self.raw = new_raw;
        Ok(())
    }

    /// Promote the left child of the root, dropping the empty right half.
    fn shrink<DB: WriteBackend>(&mut self, db: &mut DB) -> (r: Result<(), Error<DB::Error>>)
        requires
            old(db).wf(),
            vector_wf(old(self)@),
        ensures
            final(db).wf(),
            same_config(final(db), old(db)),
            ({
                let o = spec_shrink(
                    old(db).store(),
                    old(self)@,
                    !R::dangling(),
                    db_config(old(db)),
                );
                final(db).store() == o.0 && final(self)@ == o.1 && (r is Ok) == o.2
            }),
    {
        let found = match self.raw.get(db, MerkleIndex::root().left()) {
            Ok(found) => found,
            Err(e) => {
                return Err(e);
            },
        };
        let blank: Vec<u8> = Vec::new();
        proof {
            assert(blank@ =~= Seq::<u8>::empty());
        }
        let newroot = match found {
            Some(extended_value) => extended_value,
            None => Value::End(blank),
        };
        match self.raw.set(db, MerkleIndex::root(), newroot) {
            Ok(_) => Ok(()),
            Err(e) => Err(e),
        }
    }

    /// Pop a value from the vector.
    pub fn pop<DB: WriteBackend>(&mut self, db: &mut DB) -> (r: Result<
        Option<Vec<u8>>,
        Error<DB::Error>,
    >)
        requires
            old(db).wf(),
            vector_wf(old(self)@),
        ensures
            final(db).wf(),
            same_config(final(db), old(db)),
            vector_wf(final(self)@),
            ({
                let o = spec_vector_pop(
                    old(db).store(),
                    old(self)@,
                    !R::dangling(),
                    db_config(old(db)),
                );
                final(db).store() == o.0 && final(self)@ == o.1 && match r {
                    Ok(popped) => o.2 && match popped {
                        Some(bytes) => o.3 == Some(bytes@),
                        None => o.3 is None && old(self)@.len == 0,
                    },
                    Err(_) => !o.2,
                }
            }),
    {
        let old_len = self.len;
        if old_len == 0 {
            return Ok(None);
        }
        let index = old_len - 1;
        let raw_index = self.raw_index(index);
        let c0 = self.current_max_len();
        let found = match self.raw.get(db, raw_index) {
            Ok(found) => found,
            Err(e) => {
                return Err(e);
            },
        };
        let value = match found {
            Some(v) => match v {
                Value::End(bytes) => bytes,
                Value::Intermediate(_) => {
                    return Err(Error::CorruptedDatabase);
                },
            },
            None => {
                return Err(Error::CorruptedDatabase);
            },
        };
        let mut empty_depth_to_bottom: usize = 0;
        let mut replace_index = raw_index;
        proof {
            lemma_pop_replace_bound(raw_index@);
            crate::index::lemma_index_bound(raw_index);
        }
        loop
            invariant
                replace_index@ >= 1,
                raw_index@ <= usize::MAX,
                pop_replace(raw_index@).1 <= raw_index@ / 2,
                pop_replace(replace_index@).0 == pop_replace(raw_index@).0,
                empty_depth_to_bottom + pop_replace(replace_index@).1 == pop_replace(
                    raw_index@,
                ).1,
            ensures
                pop_replace(raw_index@).0 == replace_index@,
                pop_replace(raw_index@).1 == empty_depth_to_bottom,
            decreases replace_index@,
        {
            match replace_index.parent() {
                Some(parent) => {
                    proof {
                        lemma_pop_replace_bound(replace_index@);
                        crate::index::lemma_index_bound(replace_index);
                        assert(parent@ * 2 <= replace_index@);
                    }
                    let candidate = parent.left();
                    if candidate == replace_index {
                        proof {
                            crate::index::lemma_index_view_inj(candidate, replace_index);
                        }
                        replace_index = parent;
                        empty_depth_to_bottom = empty_depth_to_bottom + 1;
                    } else {
                        proof {
                            crate::index::lemma_index_view_inj(candidate, replace_index);
                            assert(replace_index@ % 2 == 1);
                        }
                        break ;
                    }
                },
                None => {
                    break ;
                },
            }
        }
        let empty = match db.empty_at(empty_depth_to_bottom) {
            Ok(v) => v,
            Err(e) => {
                proof {
                    assert(false);
                }
                return Err(Error::Backend(e));
            },
        };
        match self.raw.set(db, replace_index, empty) {
            Ok(_) => {},
            Err(e) => {
                return Err(e);
            },
        }
        let len = old_len - 1;
        if len <= c0 / 2 {
            if self.max_len.is_none() {
                match self.shrink(db) {
                    Ok(_) => {},
                    Err(e) => {
                        return Err(e);
                    },
                }
            }
        }
        self.len = len;
        Ok(Some(value))
    }

    /// Root of the vector's raw tree.
    pub fn root(&self) -> (r: Value)
        ensures
            r@ == self@.root,
    {
        self.raw.root()
    }

    /// Get the length of the vector.
    pub fn len(&self) -> (r: usize)
        ensures
            r == self@.len,
    {
        self.len
    }

    /// Create a vector from a raw merkle tree.
    pub fn from_raw(raw: Raw<R>, len: usize, max_len: Option<usize>) -> (r: Self)
        requires
            len <= usize::MAX / 8,
            match max_len {
                Some(m) => len <= m && 1 <= m <= usize::MAX / 8,
                None => true,
            },
        ensures
            vector_wf(r@),
            r@.root == raw@,
            r@.len == len,
            r@.max_len == match max_len {
                Some(m) => Some(m as nat),
                None => None::<nat>,
            },
    {
        Self { raw, len, max_len }
    }
}

impl Vector<crate::traits::Owned> {
    /// Create a new vector over its all-empty tree.
    pub fn create<DB: WriteBackend>(db: &mut DB, len: usize, max_len: Option<usize>) -> (r:
        Result<Self, Error<DB::Error>>)
        requires
            old(db).wf(),
            len <= usize::MAX / 8,
            match max_len {
                Some(m) => m <= usize::MAX / 8,
                None => true,
            },
        ensures
            final(db).wf(),
            same_config(final(db), old(db)),
            ({
                let bad = match max_len {
                    Some(m) => m < len || m == 0,
                    None => false,
                };
                if bad {
                    r == Err::<Self, Error<DB::Error>>(Error::InvalidParameter) && final(db).store() == old(db).store()
                } else {
                    let o = spec_vector_create(
                        old(db).store(),
                        len as nat,
                        match max_len {
                            Some(m) => Some(m as nat),
                            None => None,
                        },
                        true,
                        db_config(old(db)),
                    );
                    final(db).store() == o.0 && match r {
                        Ok(v) => o.2 && v@ == o.1 && vector_wf(v@),
                        Err(e) => !o.2 && e is Backend,
                    }
                }
            }),
            r matches Err(e) ==> (e is Backend || e is InvalidParameter),
    {
        match max_len {
            Some(m) => {
                if m < len || m == 0 {
                    return Err(Error::InvalidParameter);
                }
            },
            None => {},
        }
        let mut raw = Raw::<crate::traits::Owned>::default();
        let target = match max_len {
            Some(m) => m,
            None => len,
        };
        let depth = depth_of_len(target);
        let empty = match db.empty_at(depth) {
            Ok(v) => v,
            Err(e) => {
                proof {
                    assert(false);
                }
                return Err(Error::Backend(e));
            },
        };
        match raw.set(db, MerkleIndex::root(), empty) {
            Ok(_) => {},
            Err(e) => {
                return Err(e);
            },
        }
        Ok(Self { raw, len, max_len })
    }
}

/// Two to the `depth_for` power covers the target and no smaller tree does.
proof fn lemma_depth_of_pow(m: nat, d: nat)
    requires
        pow2(d) == next_pow2(m),
    ensures
        d == depth_for(m) || pow2(d) == pow2(depth_for(m)),
{
    lemma_next_pow2_eq(m);
}

/// The blanked position of a pop stays a positive index.
proof fn lemma_pop_replace_bound(idx: nat)
    requires
        idx >= 1,
    ensures
        pop_replace(idx).0 >= 1,
        pop_replace(idx).1 <= idx / 2,
    decreases idx,
{
    if !(idx <= 1 || idx % 2 == 1) {
        lemma_pop_replace_bound(idx / 2);
    }
}

/// The depth of the smallest power-of-two tree holding `target` items.
#[verifier::loop_isolation(false)]
pub(crate) fn depth_of_len(target: usize) -> (r: usize)
    requires
        target <= usize::MAX / 4,
    ensures
        r == depth_for(target as nat),
{
    let mut max_len: usize = 1;
    let mut depth: usize = 0;
    proof {
        lemma_next_pow2_ge(target as nat);
        lemma_next_pow2_eq(target as nat);
    }
    while max_len < target
        invariant
            max_len >= 1,
            depth < max_len,
            max_len == pow2(depth as nat),
            max_len <= next_pow2(target as nat),
        decreases 2 * (target as int) - max_len,
    {
        proof {
            lemma_next_pow2_le(target as nat);
            if depth as nat + 1 > depth_for(target as nat) {
                lemma_pow2_mono(depth_for(target as nat), depth as nat);
                assert(false);
            }
            lemma_pow2_mono(depth as nat + 1, depth_for(target as nat));
        }
        max_len = max_len * 2;
        depth = depth + 1;
    }
    proof {
        lemma_next_pow2_min(target as nat, depth as nat);
        lemma_pow2_inj(depth as nat, depth_for(target as nat));
    }
    depth
}

/// The smallest power of two that holds `len` items.
#[verifier::loop_isolation(false)]
fn next_pow2_len(len: usize) -> (r: usize)
    requires
        len <= usize::MAX / 8,
    ensures
        r == next_pow2(len as nat),
{
    let mut max_len: usize = 1;
    let ghost mut d: nat = 0;
    proof {
        lemma_next_pow2_ge(len as nat);
        lemma_next_pow2_eq(len as nat);
    }
    while max_len < len
        invariant
            max_len >= 1,
            max_len == pow2(d),
            max_len <= next_pow2(len as nat),
        decreases 2 * (len as int) - max_len,
    {
        proof {
            lemma_next_pow2_le(len as nat);
            if d + 1 > depth_for(len as nat) {
                lemma_pow2_mono(depth_for(len as nat), d);
                assert(false);
            }
            lemma_pow2_mono(d + 1, depth_for(len as nat));
        }
        max_len = max_len * 2;
        proof {
            d = d + 1;
        }
    }
    proof {
        lemma_next_pow2_min(len as nat, d);
    }
    max_len
}

/// Powers of two are injective in the exponent.
proof fn lemma_pow2_inj(a: nat, b: nat)
    requires
        pow2(a) == pow2(b),
    ensures
        a == b,
    decreases a,
{
    if a > 0 && b > 0 {
        lemma_pow2_inj((a - 1) as nat, (b - 1) as nat);
    } else if a > 0 {
        lemma_pow2_pos((a - 1) as nat);
    } else if b > 0 {
        lemma_pow2_pos((b - 1) as nat);
    }
}

impl<R: RootStatus, DB: WriteBackend> Tree<DB> for Vector<R> {
    type Status = R;

    open spec fn spec_root(&self) -> ValueRep {
        self@.root
    }

    open spec fn spec_drop(&self, s: StoreRep, noop: bool) -> (StoreRep, bool) {
        crate::raw::spec_tree_drop(s, self@.root, !R::dangling(), noop)
    }

    fn root(&self) -> (r: Value) {
        self.raw.root()
    }

    fn drop(self, db: &mut DB) -> (r: Result<(), Error<DB::Error>>) {
        self.raw.drop(db)
    }
}

impl<R: RootStatus, DB: WriteBackend> Sequence<DB> for Vector<R> {
    open spec fn spec_len(&self) -> nat {
        self@.len
    }

    fn len(&self) -> (r: usize) {
        Vector::<R>::len(self)
    }
}

impl<R: RootStatus> Leak for Vector<R> {
    type Metadata = (Value, usize, Option<usize>);

    /// The vector described by a leaked root, length and bound; the machine
    /// bounds of `vector_wf` must hold of the metadata for the result to be
    /// usable.
    fn from_leaked(metadata: (Value, usize, Option<usize>)) -> (r: Self)
        ensures
            r@.root == metadata.0@,
            r@.len == metadata.1,
            r@.max_len == match metadata.2 {
                Some(m) => Some(m as nat),
                None => None::<nat>,
            },
    {
        Self { raw: Raw::from_leaked(metadata.0), len: metadata.1, max_len: metadata.2 }
    }

    /// The root, length and bound, which stand for the whole vector.
    fn metadata(&self) -> (m: (Value, usize, Option<usize>))
        ensures
            m.0@ == self@.root,
            m.1 == self@.len,
            self@.max_len == match m.2 {
                Some(x) => Some(x as nat),
                None => None::<nat>,
            },
    {
        (self.raw.root(), self.len, self.max_len)
    }
}

} // verus!

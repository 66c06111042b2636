//! Raw merkle tree: generalized-index reads and writes over a root value.

use vstd::prelude::*;

use core::marker::PhantomData;

use crate::index::{route_of, MerkleIndex, MerkleRoute, MerkleSelection};
use crate::store::{store_insert_res, store_remove_all, store_rootify_res, PairRep, StoreRep};
use crate::traits::{
    hash_of_pair, intermediate_of, same_config, Backend, Dangling, Error, Leak, Owned,
    ReadBackend, RootStatus, Tree, Value, ValueRep, WriteBackend,
};

verus! {

/// The child a selection picks out of a pair.
pub open spec fn sel_value(pair: PairRep, sel: MerkleSelection) -> ValueRep {
    match sel {
        MerkleSelection::Left => pair.0,
        MerkleSelection::Right => pair.1,
    }
}

/// The pair with the selected child replaced.
pub open spec fn plug(pair: PairRep, sel: MerkleSelection, v: ValueRep) -> PairRep {
    match sel {
        MerkleSelection::Left => (v, pair.1),
        MerkleSelection::Right => (pair.0, v),
    }
}

/// Walking a route down from a value through the store.  `Some(Some(v))`
/// is the value found, `Some(None)` a walk that met a leaf before the route
/// was exhausted, `None` a missing store entry.
pub open spec fn spec_get(s: StoreRep, v: ValueRep, route: Seq<MerkleSelection>) -> Option<
    Option<ValueRep>,
>
    decreases route.len(),
{
    if route.len() == 0 {
        Some(Some(v))
    } else {
        match v {
            ValueRep::End(_) => Some(None),
            ValueRep::Intermediate(k) => if !s.contains_key(k) {
                None
            } else {
                spec_get(s, sel_value(s[k].0, route[0]), route.drop_first())
            },
        }
    }
}

/// Rebuilding a chain along a route: read the pair under the current value
/// (a conceptual empty pair under a leaf), rewrite the selected child below
/// it, then hash and insert the rewritten pair.  The first component is the
/// store reached, the second the new subtree root, or `None` on a backend
/// failure.
pub open spec fn spec_set_walk(
    s: StoreRep,
    current: ValueRep,
    route: Seq<MerkleSelection>,
    leaf: ValueRep,
    noop: bool,
    end: Seq<u8>,
) -> (StoreRep, Option<ValueRep>)
    decreases route.len(),
{
    if route.len() == 0 {
        (s, Some(leaf))
    } else {
        let pair_or = match current {
            ValueRep::End(_) => Some((ValueRep::End(end), ValueRep::End(end))),
            ValueRep::Intermediate(k) => if s.contains_key(k) {
                Some(s[k].0)
            } else {
                None
            },
        };
        match pair_or {
            None => (s, None),
            Some(pair) => {
                let step = spec_set_walk(
                    s,
                    sel_value(pair, route[0]),
                    route.drop_first(),
                    leaf,
                    noop,
                    end,
                );
                match step.1 {
                    None => (step.0, None),
                    Some(update) => {
                        let newpair = plug(pair, route[0], update);
                        let key = hash_of_pair(newpair.0, newpair.1);
                        if noop {
                            (step.0, Some(ValueRep::Intermediate(key)))
                        } else {
                            let ins = store_insert_res(step.0, key, newpair);
                            if ins.1 {
                                (ins.0, Some(ValueRep::Intermediate(key)))
                            } else {
                                (ins.0, None)
                            }
                        }
                    },
                }
            },
        }
    }
}

/// A whole `set` operation: the validity check of an intermediate leaf, the
/// chain rebuild, then rootifying the new root and unrootifying the old one
/// when the tree owns its root.  Components: store reached, root value of
/// the tree afterwards, success.
pub open spec fn spec_raw_set(
    s: StoreRep,
    root: ValueRep,
    idx: nat,
    leaf: ValueRep,
    owned: bool,
    noop: bool,
    end: Seq<u8>,
) -> (StoreRep, ValueRep, bool) {
    let precheck = match leaf {
        ValueRep::Intermediate(k) => s.contains_key(k),
        ValueRep::End(_) => true,
    };
    if !precheck {
        (s, root, false)
    } else {
        let walk = spec_set_walk(s, root, route_of(idx), leaf, noop, end);
        match walk.1 {
            None => (walk.0, root, false),
            Some(update) => {
                let rooted = if owned && !noop && update.is_intermediate() {
                    store_rootify_res(walk.0, update.key())
                } else {
                    (walk.0, true)
                };
                if !rooted.1 {
                    (rooted.0, root, false)
                } else {
                    let unrooted = if owned && !noop && root.is_intermediate() {
                        store_remove_all(rooted.0, seq![root.key()])
                    } else {
                        (rooted.0, true)
                    };
                    if !unrooted.1 {
                        (unrooted.0, root, false)
                    } else {
                        (unrooted.0, update, true)
                    }
                }
            },
        }
    }
}

/// The store left behind by dropping a tree with the given root, and
/// whether the drop succeeds: an owned intermediate root is unrootified,
/// anything else is left alone.
pub open spec fn spec_tree_drop(s: StoreRep, root: ValueRep, owned: bool, noop: bool) -> (
    StoreRep,
    bool,
) {
    if owned && !noop && root.is_intermediate() {
        store_remove_all(s, seq![root.key()])
    } else {
        (s, true)
    }
}


/// The chain rebuild inserts every interior pair under its own hash and
/// keeps the store finite, so hash-consistency survives the walk.
pub proof fn lemma_set_walk_consistent(
    s: StoreRep,
    current: ValueRep,
    route: Seq<MerkleSelection>,
    leaf: ValueRep,
    noop: bool,
    end: Seq<u8>,
)
    requires
        s.dom().finite(),
        crate::store::store_hash_consistent(s),
    ensures
        spec_set_walk(s, current, route, leaf, noop, end).0.dom().finite(),
        crate::store::store_hash_consistent(spec_set_walk(s, current, route, leaf, noop, end).0),
    decreases route.len(),
{
    if route.len() > 0 {
        let pair_or = match current {
            ValueRep::End(_) => Some((ValueRep::End(end), ValueRep::End(end))),
            ValueRep::Intermediate(k) => if s.contains_key(k) {
                Some(s[k].0)
            } else {
                None
            },
        };
        match pair_or {
            None => {},
            Some(pair) => {
                lemma_set_walk_consistent(
                    s,
                    sel_value(pair, route[0]),
                    route.drop_first(),
                    leaf,
                    noop,
                    end,
                );
                let step = spec_set_walk(
                    s,
                    sel_value(pair, route[0]),
                    route.drop_first(),
                    leaf,
                    noop,
                    end,
                );
                match step.1 {
                    None => {},
                    Some(update) => {
                        let newpair = plug(pair, route[0], update);
                        let key = hash_of_pair(newpair.0, newpair.1);
                        if !noop {
                            crate::store::lemma_insert_consistent(step.0, key, newpair);
                            crate::store::lemma_bump_child_dom(step.0, newpair.0);
                            crate::store::lemma_bump_child_dom(
                                crate::store::store_bump_child(step.0, newpair.0),
                                newpair.1,
                            );
                        }
                    },
                }
            },
        }
    }
}

/// A whole set keeps the store hash-consistent: the rebuild inserts under
/// hashes, and rootify and the unrootify cascade never change a pair.
pub proof fn lemma_raw_set_consistent(
    s: StoreRep,
    root: ValueRep,
    idx: nat,
    leaf: ValueRep,
    owned: bool,
    noop: bool,
    end: Seq<u8>,
)
    requires
        s.dom().finite(),
        crate::store::store_hash_consistent(s),
    ensures
        crate::store::store_hash_consistent(
            spec_raw_set(s, root, idx, leaf, owned, noop, end).0,
        ),
{
    let precheck = match leaf {
        ValueRep::Intermediate(k) => s.contains_key(k),
        ValueRep::End(_) => true,
    };
    if precheck {
        lemma_set_walk_consistent(s, root, route_of(idx), leaf, noop, end);
        let walk = spec_set_walk(s, root, route_of(idx), leaf, noop, end);
        match walk.1 {
            None => {},
            Some(update) => {
                let rooted = if owned && !noop && update.is_intermediate() {
                    store_rootify_res(walk.0, update.key())
                } else {
                    (walk.0, true)
                };
                crate::store::lemma_rootify_consistent(walk.0, update.key());
                if rooted.1 {
                    if owned && !noop && root.is_intermediate() {
                        assert(rooted.0.dom().finite()) by {
                            if owned && !noop && update.is_intermediate() {
                                crate::store::lemma_bump_dom(walk.0, update.key());
                            }
                        }
                        crate::store::lemma_remove_all_consistent(rooted.0, seq![root.key()]);
                    }
                }
            },
        }
    }
}

/// `Raw` with owned root.
pub type OwnedRaw = Raw<Owned>;

/// `Raw` with dangling root.
pub type DanglingRaw = Raw<Dangling>;

/// Raw merkle tree.
pub struct Raw<R: RootStatus> {
    root: Value,
    _marker: PhantomData<R>,
}

impl<R: RootStatus> View for Raw<R> {
    type V = ValueRep;

    closed spec fn view(&self) -> ValueRep {
        self.root@
    }
}

impl<R: RootStatus> Default for Raw<R> {
    /// A fresh tree holds the zero-length end value as its root.
    fn default() -> (r: Self)
        ensures
            r@ == ValueRep::End(Seq::<u8>::empty()),
    {
        let r = Raw { root: Value::End(Vec::new()), _marker: PhantomData };
        proof {
            assert(r@->End_0 =~= Seq::<u8>::empty());
        }
        r
    }
}

/// One step of the rebuild: read the children of the current value, with a
/// conceptual empty pair under a leaf.
fn read_pair<DB: WriteBackend>(db: &mut DB, current: &Value) -> (r: Result<
    (Value, Value),
    Error<DB::Error>,
>)
    requires
        old(db).wf(),
    ensures
        final(db).wf(),
        same_config(final(db), old(db)),
        final(db).store() == old(db).store(),
        match r {
            Ok(pair) => match current@ {
                ValueRep::End(_) => (pair.0@, pair.1@) == (
                    ValueRep::End(old(db).empty_end()),
                    ValueRep::End(old(db).empty_end()),
                ),
                ValueRep::Intermediate(k) => old(db).store().contains_key(k) && old(
                    db,
                ).store()[k].0 == (pair.0@, pair.1@),
            },
            Err(e) => e is Backend && current@ is Intermediate && !old(
                db,
            ).store().contains_key(current@->Intermediate_0),
        },
{
    match current {
        Value::End(_) => {
            let e0 = match db.empty_at(0) {
                Ok(v) => v,
                Err(e) => {
                    proof {
                        assert(false);
                    }
                    return Err(Error::Backend(e));
                },
            };
            let e1 = match db.empty_at(0) {
                Ok(v) => v,
                Err(e) => {
                    proof {
                        assert(false);
                    }
                    return Err(Error::Backend(e));
                },
            };
            Ok((e0, e1))
        },
        Value::Intermediate(k) => {
            match db.get(k) {
                Ok(pair) => Ok(pair),
                Err(e) => Err(Error::Backend(e)),
            }
        },
    }
}

/// Rebuild the chain from `at` in the route down to its end, plugging the
/// new leaf at the bottom and hashing parent pairs back up.
fn set_rec<DB: WriteBackend>(
    db: &mut DB,
    current: &Value,
    route: &Vec<MerkleSelection>,
    at: usize,
    leaf: Value,
) -> (r: Result<Value, Error<DB::Error>>)
    requires
        old(db).wf(),
        at <= route@.len(),
    ensures
        final(db).wf(),
        same_config(final(db), old(db)),
        ({
            let walk = spec_set_walk(
                old(db).store(),
                current@,
                route@.skip(at as int),
                leaf@,
                old(db).is_noop(),
                old(db).empty_end(),
            );
            final(db).store() == walk.0 && match r {
                Ok(v) => walk.1 == Some(v@),
                Err(e) => walk.1 is None && e is Backend,
            }
        }),
    decreases route@.len() - at,
{
    if at == route.len() {
        return Ok(leaf);
    }
    let ghost rt = route@.skip(at as int);
    proof {
        assert(rt[0] == route@[at as int]);
        assert(rt.drop_first() =~= route@.skip(at as int + 1));
    }
    let pair = match read_pair(db, current) {
        Ok(p) => p,
        Err(e) => {
            return Err(e);
        },
    };
    let sel = route[at];
    let child: Value = match sel {
        MerkleSelection::Left => pair.0.clone(),
        MerkleSelection::Right => pair.1.clone(),
    };
    let update = match set_rec(db, &child, route, at + 1, leaf) {
        Ok(v) => v,
        Err(e) => {
            return Err(e);
        },
    };
    let newpair: (Value, Value) = match sel {
        MerkleSelection::Left => (update, pair.1),
        MerkleSelection::Right => (pair.0, update),
    };
    let key = intermediate_of(&newpair.0, &newpair.1);
    let key2 = key.clone();
    match db.insert(key2, newpair) {
        Ok(_) => {},
        Err(e) => {
            return Err(Error::Backend(e));
        },
    }
    Ok(Value::Intermediate(key))
}

impl<R: RootStatus> Raw<R> {
    /// Return the root of the tree.
    pub fn root(&self) -> (r: Value)
        ensures
            r@ == self@,
    {
        self.root.clone()
    }

    /// Get value from the tree via generalized merkle index.
    #[verifier::loop_isolation(false)]
    pub fn get<DB: ReadBackend>(&self, db: &mut DB, index: MerkleIndex) -> (r: Result<
        Option<Value>,
        Error<DB::Error>,
    >)
        requires
            old(db).wf(),
            index@ >= 1,
        ensures
            final(db).wf(),
            same_config(final(db), old(db)),
            final(db).store() == old(db).store(),
            match r {
                Ok(found) => spec_get(old(db).store(), self@, route_of(index@)) == Some(
                    match found {
                        Some(v) => Some(v@),
                        None => None::<ValueRep>,
                    },
                ),
                Err(e) => e is Backend && spec_get(old(db).store(), self@, route_of(index@))
                    is None,
            },
    {
        let sels = index.route_selections();
        proof {
            assert(sels@.skip(0) =~= sels@);
        }
        let mut current = self.root.clone();
        let n: usize = sels.len();
        let mut i: usize = 0;
        while i < n
            invariant
                i <= n,
                db.wf(),
                same_config(db, old(db)),
                db.store() == old(db).store(),
                spec_get(old(db).store(), self@, route_of(index@)) == spec_get(
                    old(db).store(),
                    current@,
                    sels@.skip(i as int),
                ),
            decreases n - i,
        {
            proof {
                assert(sels@.skip(i as int)[0] == sels@[i as int]);
                assert(sels@.skip(i as int).drop_first() =~= sels@.skip(i as int + 1));
            }
            let intermediate = match current {
                Value::Intermediate(k) => k,
                Value::End(_) => {
                    return Ok(None);
                },
            };
            let pair = match db.get(&intermediate) {
                Ok(p) => p,
                Err(e) => {
                    return Err(Error::Backend(e));
                },
            };
            current = match sels[i] {
                MerkleSelection::Left => pair.0,
                MerkleSelection::Right => pair.1,
            };
            i = i + 1;
        }
        proof {
            assert(sels@.skip(n as int) =~= Seq::<MerkleSelection>::empty());
        }
        Ok(Some(current))
    }

    /// Return a reference to a subtree.
    pub fn subtree<DB: ReadBackend>(&self, db: &mut DB, index: MerkleIndex) -> (r: Result<
        DanglingRaw,
        Error<DB::Error>,
    >)
        requires
            old(db).wf(),
            index@ >= 1,
        ensures
            final(db).wf(),
            same_config(final(db), old(db)),
            final(db).store() == old(db).store(),
            match r {
                Ok(sub) => spec_get(old(db).store(), self@, route_of(index@)) == Some(
                    Some(sub@),
                ),
                Err(Error::CorruptedDatabase) => spec_get(old(db).store(), self@, route_of(index@))
                    == Some(None::<ValueRep>),
                Err(Error::Backend(_)) => spec_get(old(db).store(), self@, route_of(index@))
                    is None,
                Err(_) => false,
            },
    {
        let found = match self.get(db, index) {
            Ok(found) => found,
            Err(e) => {
                return Err(e);
            },
        };
        match found {
            Some(root) => Ok(Raw { root, _marker: PhantomData }),
            None => Err(Error::CorruptedDatabase),
        }
    }

    /// Set value of the merkle tree via generalized merkle index.
    pub fn set<DB: WriteBackend>(&mut self, db: &mut DB, index: MerkleIndex, set: Value) -> (r:
        Result<(), Error<DB::Error>>)
        requires
            old(db).wf(),
            index@ >= 1,
        ensures
            final(db).wf(),
            same_config(final(db), old(db)),
            ({
                let outcome = spec_raw_set(
                    old(db).store(),
                    old(self)@,
                    index@,
                    set@,
                    !R::dangling(),
                    old(db).is_noop(),
                    old(db).empty_end(),
                );
                final(db).store() == outcome.0 && final(self)@ == outcome.1 && (r is Ok)
                    == outcome.2
            }),
            r matches Err(e) ==> e is Backend,
    {
        match &set {
            Value::End(_) => {},
            Value::Intermediate(key) => {
                let value = match db.get(key) {
                    Ok(pair) => pair,
                    Err(e) => {
                        return Err(Error::Backend(e));
                    },
                };
                let key2 = key.clone();
                match db.insert(key2, value) {
                    Ok(_) => {},
                    Err(e) => {
                        proof {
                            assert(false);
                        }
                        return Err(Error::Backend(e));
                    },
                }
            },
        }
        let route = index.route_selections();
        proof {
            assert(route@.skip(0) =~= route@);
        }
        let update = match set_rec(db, &self.root, &route, 0, set) {
            Ok(v) => v,
            Err(e) => {
                return Err(e);
            },
        };
        if R::is_owned() {
            match &update {
                Value::Intermediate(key) => {
                    match db.rootify(key) {
                        Ok(_) => {},
                        Err(e) => {
                            return Err(Error::Backend(e));
                        },
                    }
                },
                Value::End(_) => {},
            }
            match &self.root {
                Value::Intermediate(key) => {
                    match db.unrootify(key) {
                        Ok(_) => {},
                        Err(e) => {
                            return Err(Error::Backend(e));
                        },
                    }
                },
                Value::End(_) => {},
            }
        }
        self.root = update;
        Ok(())
    }

    /// Drop the current tree, unrootifying an owned intermediate root.
    pub fn drop<DB: WriteBackend>(self, db: &mut DB) -> (r: Result<(), Error<DB::Error>>)
        requires
            old(db).wf(),
        ensures
            final(db).wf(),
            same_config(final(db), old(db)),
            ({
                let dropped = spec_tree_drop(
                    old(db).store(),
                    self@,
                    !R::dangling(),
                    old(db).is_noop(),
                );
                final(db).store() == dropped.0 && (r is Ok) == dropped.1
            }),
    {
        if R::is_owned() {
            match &self.root {
                Value::Intermediate(key) => {
                    match db.unrootify(key) {
                        Ok(_) => Ok(()),
                        Err(e) => Err(Error::Backend(e)),
                    }
                },
                Value::End(_) => Ok(()),
            }
        } else {
            Ok(())
        }
    }
}

impl<R: RootStatus, DB: WriteBackend> Tree<DB> for Raw<R> {
    type Status = R;

    open spec fn spec_root(&self) -> ValueRep {
        self@
    }

    open spec fn spec_drop(&self, s: StoreRep, noop: bool) -> (StoreRep, bool) {
        spec_tree_drop(s, self@, !R::dangling(), noop)
    }

    fn root(&self) -> (r: Value) {
        Raw::<R>::root(self)
    }

    fn drop(self, db: &mut DB) -> (r: Result<(), Error<DB::Error>>) {
        Raw::<R>::drop(self, db)
    }
}

impl<R: RootStatus> Leak for Raw<R> {
    type Metadata = Value;

    /// The tree described by a leaked root value.
    fn from_leaked(metadata: Value) -> (r: Self)
        ensures
            r@ == metadata@,
    {
        Raw { root: metadata, _marker: PhantomData }
    }

    /// The root value, which stands for the whole tree.
    fn metadata(&self) -> (m: Value)
        ensures
            m@ == self@,
    {
        self.root.clone()
    }
}

} // verus!

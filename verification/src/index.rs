//! Generalized merkle tree indices.
//!
//! An index is a positive integer naming a position in the infinite binary
//! tree: `1` is the root, `2k` the left child of `k`, `2k + 1` its right
//! child.  Its route is the sequence of left/right selections read from the
//! most significant bit (excluding the leading one) down to the least.

use vstd::prelude::*;

verus! {

/// Merkle selection.
#[derive(Clone, Copy, Eq, PartialEq, Structural, Debug)]
pub enum MerkleSelection {
    /// Choose left at current depth.
    Left,
    /// Choose right at current depth.
    Right,
}

/// The route encoded by a positive index: selections from below the root
/// down to the position itself.
pub open spec fn route_of(i: nat) -> Seq<MerkleSelection>
    decreases i,
{
    if i <= 1 {
        Seq::empty()
    } else {
        route_of(i / 2).push(
            if i % 2 == 0 {
                MerkleSelection::Left
            } else {
                MerkleSelection::Right
            },
        )
    }
}

/// Whether `a` lies on the strict ancestor chain of `d`.
pub open spec fn is_ancestor_of(a: nat, d: nat) -> bool
    decreases d,
{
    if d <= 1 {
        false
    } else if d / 2 == a {
        true
    } else {
        is_ancestor_of(a, d / 2)
    }
}

/// Merkle route.
#[derive(Clone, Eq, Debug)]
pub enum MerkleRoute {
    /// Root of the merkle tree.
    Root,
    /// Select items from the root.
    Select(Vec<MerkleSelection>),
}

/// Whether two routes describe the same selections.
pub open spec fn route_eq_spec(x: MerkleRoute, y: MerkleRoute) -> bool {
    match (x, y) {
        (MerkleRoute::Root, MerkleRoute::Root) => true,
        (MerkleRoute::Select(a), MerkleRoute::Select(b)) => a@ == b@,
        _ => false,
    }
}

impl PartialEq for MerkleRoute {
    #[verifier::loop_isolation(false)]
    fn eq(&self, other: &Self) -> (r: bool)
        ensures
            r == route_eq_spec(*self, *other),
    {
        match self {
            MerkleRoute::Root => match other {
                MerkleRoute::Root => true,
                MerkleRoute::Select(_) => false,
            },
            MerkleRoute::Select(a) => match other {
                MerkleRoute::Root => false,
                MerkleRoute::Select(b) => {
                    if a.len() != b.len() {
                        proof {
                            assert(a@.len() != b@.len());
                        }
                        return false;
                    }
                    let n: usize = a.len();
                    let mut i: usize = 0;
                    while i < n
                        invariant
                            n == a@.len() && n == b@.len(),
                            i <= n,
                            forall|j: int| 0 <= j < i ==> a@[j] == b@[j],
                        decreases n - i,
                    {
                        if a[i] != b[i] {
                            proof {
                                assert(a@[i as int] != b@[i as int]);
                                assert(a@ != b@);
                            }
                            return false;
                        }
                        i = i + 1;
                    }
                    proof {
                        assert(a@ =~= b@);
                    }
                    true
                },
            },
        }
    }
}

impl vstd::std_specs::cmp::PartialEqSpecImpl for MerkleRoute {
    open spec fn obeys_eq_spec() -> bool {
        true
    }

    open spec fn eq_spec(&self, other: &Self) -> bool {
        route_eq_spec(*self, *other)
    }
}

impl MerkleRoute {
    /// Get selection at depth, where root is considered depth 0.
    pub fn at_depth(&self, depth: usize) -> (r: Option<MerkleSelection>)
        ensures
            r == match self {
                MerkleRoute::Root => None::<MerkleSelection>,
                MerkleRoute::Select(sels) => if depth == 0 || depth > sels@.len() {
                    None
                } else {
                    Some(sels@[depth - 1])
                },
            },
    {
        match self {
            MerkleRoute::Root => None,
            MerkleRoute::Select(selections) => {
                if depth == 0 || depth > selections.len() {
                    None
                } else {
                    Some(selections[depth - 1])
                }
            },
        }
    }
}

/// Raw merkle index.
#[derive(Clone, Copy, Eq, PartialEq, Structural, Debug)]
pub struct MerkleIndex(pub(crate) usize);

impl View for MerkleIndex {
    type V = nat;

    closed spec fn view(&self) -> nat {
        self.0 as nat
    }
}

/// An index fits the machine word it is stored in.
pub proof fn lemma_index_bound(i: MerkleIndex)
    ensures
        i@ <= usize::MAX,
{
}

/// Two indices are equal exactly when they name the same position.
pub proof fn lemma_index_view_inj(a: MerkleIndex, b: MerkleIndex)
    ensures
        (a == b) <==> (a@ == b@),
{
}

impl MerkleIndex {
    /// Root merkle index.
    pub fn root() -> (r: Self)
        ensures
            r@ == 1,
    {
        Self(1)
    }

    /// Get left child of current index.
    pub fn left(&self) -> (r: Self)
        requires
            self@ * 2 <= usize::MAX,
        ensures
            r@ == self@ * 2,
    {
        Self(2 * self.0)
    }

    /// Get right child of current index.
    pub fn right(&self) -> (r: Self)
        requires
            self@ * 2 + 1 <= usize::MAX,
        ensures
            r@ == self@ * 2 + 1,
    {
        Self(2 * self.0 + 1)
    }

    /// Get the parent of current merkle index.
    pub fn parent(&self) -> (r: Option<Self>)
        ensures
            match r {
                None => self@ <= 1,
                Some(p) => self@ > 1 && p@ == self@ / 2,
            },
    {
        if self.0 <= 1 {
            None
        } else {
            Some(Self(self.0 / 2))
        }
    }

    /// Whether this index has given descendant.
    pub fn has_descendant(&self, other: &MerkleIndex) -> (r: bool)
        ensures
            r == is_ancestor_of(self@, other@),
        decreases other@,
    {
        match other.parent() {
            Some(parent) => {
                if parent == *self {
                    true
                } else {
                    self.has_descendant(&parent)
                }
            },
            None => false,
        }
    }

    /// From one-based index.
    pub fn from_one(value: usize) -> (r: Option<Self>)
        ensures
            match r {
                None => value == 0,
                Some(i) => value > 0 && i@ == value,
            },
    {
        if value == 0 {
            None
        } else {
            Some(Self(value))
        }
    }

    /// From zero-based index.
    pub fn from_zero(value: usize) -> (r: Self)
        requires
            value < usize::MAX,
        ensures
            r@ == value + 1,
    {
        Self(value + 1)
    }

    /// The selections leading from the root to this index.
    pub(crate) fn route_selections(&self) -> (r: Vec<MerkleSelection>)
        requires
            self@ >= 1,
        ensures
            r@ == route_of(self@),
    {
        let mut value: usize = self.0;
        let mut backwards: Vec<MerkleSelection> = Vec::new();
        while value > 1
            invariant
                value >= 1,
                route_of(self@) =~= route_of(value as nat) + backwards@.reverse(),
            decreases value,
        {
            let sel = if value & 1 == 0 {
                MerkleSelection::Left
            } else {
                MerkleSelection::Right
            };
            proof {
                assert((value & 1) == (value as nat % 2)) by (bit_vector);
                assert((value >> 1) == value / 2) by (bit_vector);
                assert(route_of(value as nat) =~= route_of((value / 2) as nat).push(sel));
                assert(route_of((value / 2) as nat) + backwards@.push(sel).reverse() =~= route_of(
                    value as nat,
                ) + backwards@.reverse());
            }
            backwards.push(sel);
            value = value >> 1;
            proof {
                assert(value >= 1) by {
                    let v0 = (value * 2) as nat;
                    assert(value as nat == 0 ==> true);
                }
            }
        }
        proof {
            assert(route_of(1) =~= Seq::<MerkleSelection>::empty());
            assert(route_of(self@) =~= backwards@.reverse());
        }
        let n: usize = backwards.len();
        let mut out: Vec<MerkleSelection> = Vec::new();
        let mut j: usize = n;
        while j > 0
            invariant
                j <= n,
                n == backwards@.len(),
                out@.len() == n - j,
                forall|k: int| 0 <= k < out@.len() ==> out@[k] == backwards@[n - 1 - k],
            decreases j,
        {
            j = j - 1;
            out.push(backwards[j]);
        }
        proof {
            assert(out@ =~= backwards@.reverse());
        }
        out
    }

    /// Get selections from current index.
    pub fn route(&self) -> (r: MerkleRoute)
        requires
            self@ >= 1,
        ensures
            match r {
                MerkleRoute::Root => self@ == 1,
                MerkleRoute::Select(sels) => self@ > 1 && sels@ == route_of(self@),
            },
    {
        let selections = self.route_selections();
        if selections.len() == 0 {
            proof {
                if self@ > 1 {
                    assert(route_of(self@).len() > 0);
                }
            }
            MerkleRoute::Root
        } else {
            proof {
                if self@ == 1 {
                    assert(route_of(self@).len() == 0);
                }
            }
            MerkleRoute::Select(selections)
        }
    }
}

} // verus!

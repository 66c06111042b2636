//! SSZ-style serialization: typed values hashed into canonical merkle
//! roots and rebuilt from a root plus a backing store.
//!
//! Little-endian primitives become right-zero-padded 32-byte leaves;
//! vectors of primitives pack their bytes into shared leaves; lists mix
//! their length into the root.

use vstd::prelude::*;

use crate::list::{mixed_left, mixed_len, mixed_pair_ok};
use crate::raw::{spec_get, Raw};
use crate::store::{empty_root, StoreRep};
use crate::traits::{
    db_config, intermediate_of, same_config, Backend, Dangling, DbConfig, Error, Leak, Value,
    ValueRep, WriteBackend,
};
use crate::utils::{
    decode_length, encode_length, le_bytes_of, le_value, pow256, spec_host_len, spec_vector_tree,
    values_rep, vector_tree,
};
use crate::vector::{depth_for, pow2};

verus! {

/// The backend-independent merkle root a value serializes to, given the
/// empty-subtree policy and the empty leaf payload.
pub trait TreeSpec {
    /// The root this value hashes to.
    spec fn tree_root_spec(&self, unit: bool, end: Seq<u8>) -> ValueRep;
}

/// Traits for type converting into a tree structure.
pub trait IntoTree<DB: WriteBackend>: TreeSpec {
    /// Convert this type into a merkle tree, writing nodes into the given
    /// database.  Over a backend that discards writes nothing can fail,
    /// so the root is always returned there.
    fn into_tree(&self, db: &mut DB) -> (r: Result<Value, Error<DB::Error>>)
        requires
            old(db).wf(),
        ensures
            final(db).wf(),
            same_config(final(db), old(db)),
            r matches Ok(v) ==> v@ == self.tree_root_spec(
                old(db).unit_policy(),
                old(db).empty_end(),
            ),
            old(db).is_noop() ==> r is Ok,
    ;
}

/// Traits for type converting from a tree structure.
pub trait FromTree<DB: WriteBackend>: Sized {
    /// Convert this type from a merkle tree, reading nodes from the given
    /// database.
    fn from_tree(root: &Value, db: &mut DB) -> (r: Result<Self, Error<DB::Error>>)
        requires
            old(db).wf(),
        ensures
            final(db).wf(),
            same_config(final(db), old(db)),
            final(db).store() == old(db).store(),
    ;
}

/// The root of the subtree of the given depth holding the given leaves
/// left-aligned, independent of any store.
pub open spec fn chunks_root(values: Seq<ValueRep>, depth: nat, unit: bool, end: Seq<u8>) -> ValueRep
    decreases depth,
{
    if depth == 0 {
        if values.len() == 0 {
            ValueRep::End(end)
        } else {
            values[0]
        }
    } else if values.len() == 0 {
        empty_root(depth, unit, end)
    } else {
        let half = pow2((depth - 1) as nat);
        let l = chunks_root(
            if values.len() <= half {
                values
            } else {
                values.take(half as int)
            },
            (depth - 1) as nat,
            unit,
            end,
        );
        let r = chunks_root(
            if values.len() <= half {
                Seq::<ValueRep>::empty()
            } else {
                values.skip(half as int)
            },
            (depth - 1) as nat,
            unit,
            end,
        );
        ValueRep::Intermediate(crate::traits::hash_of_pair(l, r))
    }
}

/// A bulk tree construction over a backend that discards writes cannot
/// fail: nothing it inserts is ever read back.
pub proof fn lemma_vector_tree_noop(s: StoreRep, values: Seq<ValueRep>, depth: nat, c: DbConfig)
    requires
        c.noop,
    ensures
        spec_vector_tree(s, values, depth, c).2,
    decreases depth,
{
    if depth > 0 && values.len() > 0 {
        let half = pow2((depth - 1) as nat);
        let lv = if values.len() <= half {
            values
        } else {
            values.take(half as int)
        };
        let rv = if values.len() <= half {
            Seq::<ValueRep>::empty()
        } else {
            values.skip(half as int)
        };
        let l = spec_vector_tree(s, lv, (depth - 1) as nat, c);
        lemma_vector_tree_noop(s, lv, (depth - 1) as nat, c);
        lemma_vector_tree_noop(l.0, rv, (depth - 1) as nat, c);
    }
}

/// The root a successful bulk tree construction returns depends on the
/// leaves and the empty policy alone, never on the store it was built
/// against: building the same value in any two backends of the same
/// construct yields the same root, and the throwaway backend yields the
/// root a real backend would.
pub proof fn lemma_vector_tree_root(s: StoreRep, values: Seq<ValueRep>, depth: nat, c: DbConfig)
    requires
        spec_vector_tree(s, values, depth, c).2,
    ensures
        spec_vector_tree(s, values, depth, c).1 == chunks_root(values, depth, c.unit, c.end),
    decreases depth,
{
    if depth > 0 && values.len() > 0 {
        let half = pow2((depth - 1) as nat);
        let lv = if values.len() <= half {
            values
        } else {
            values.take(half as int)
        };
        let rv = if values.len() <= half {
            Seq::<ValueRep>::empty()
        } else {
            values.skip(half as int)
        };
        let l = spec_vector_tree(s, lv, (depth - 1) as nat, c);
        lemma_vector_tree_root(s, lv, (depth - 1) as nat, c);
        lemma_vector_tree_root(l.0, rv, (depth - 1) as nat, c);
    }
}

/// A value whose serialized form is its little-endian bytes.
pub trait LittleEndian: Sized {
    /// Byte width of the serialized form.
    spec fn spec_width() -> nat;

    /// The numeric value.
    spec fn spec_nat(&self) -> nat;

    /// The width is positive and at most a leaf.
    proof fn width_bounds()
        ensures
            1 <= Self::spec_width() <= 32,
    ;

    /// The width bounds the value.
    proof fn nat_bounds(&self)
        ensures
            self.spec_nat() < pow256(Self::spec_width()),
    ;

    /// Byte width of the serialized form.
    fn width() -> (r: usize)
        ensures
            r == Self::spec_width(),
    ;

    /// Append the little-endian bytes of this value.
    fn append_le(&self, out: &mut Vec<u8>)
        requires
            old(out)@.len() + Self::spec_width() <= usize::MAX,
        ensures
            final(out)@ == old(out)@ + le_bytes_of(self.spec_nat(), Self::spec_width()),
    ;

    /// Read a value back from its little-endian bytes.
    fn from_le(bytes: &Vec<u8>, at: usize) -> (r: Self)
        requires
            at + Self::spec_width() <= bytes@.len(),
        ensures
            r.spec_nat() == le_value(
                bytes@.subrange(at as int, at + Self::spec_width()),
            ),
    ;
}

/// Append `width` little-endian bytes of a numeric value.
#[verifier::loop_isolation(false)]
fn append_le_of(value: u128, width: usize, out: &mut Vec<u8>)
    requires
        old(out)@.len() + width <= usize::MAX,
    ensures
        final(out)@ == old(out)@ + le_bytes_of(value as nat, width as nat),
{
    let mut cur: u128 = value;
    let mut i: usize = 0;
    proof {
        assert(old(out)@ + le_bytes_of(value as nat, width as nat) =~= old(out)@ + le_bytes_of(
            value as nat,
            width as nat,
        ));
    }
    while i < width
        invariant
            i <= width,
            out@.len() == old(out)@.len() + i,
            old(out)@ + le_bytes_of(value as nat, width as nat) =~= out@ + le_bytes_of(
                cur as nat,
                (width - i) as nat,
            ),
        decreases width - i,
    {
        let b: u8 = (cur % 256) as u8;
        proof {
            assert(le_bytes_of(cur as nat, (width - i) as nat) =~= seq![b] + le_bytes_of(
                (cur / 256) as nat,
                (width - i - 1) as nat,
            ));
            assert(out@ + le_bytes_of(cur as nat, (width - i) as nat) =~= out@.push(b)
                + le_bytes_of((cur / 256) as nat, (width - i - 1) as nat));
        }
        out.push(b);
        cur = cur / 256;
        i = i + 1;
    }
    proof {
        assert(le_bytes_of(cur as nat, 0) =~= Seq::<u8>::empty());
        assert(out@ + le_bytes_of(cur as nat, 0) =~= out@);
    }
}

/// Read `width` little-endian bytes at an offset into a numeric value.
#[verifier::loop_isolation(false)]
fn read_le_at(bytes: &Vec<u8>, at: usize, width: usize) -> (r: u128)
    requires
        width <= 16,
        at + width <= bytes@.len(),
    ensures
        r as nat == le_value(bytes@.subrange(at as int, at + width)),
{
    let blen = bytes.len();
    let mut acc: u128 = 0;
    let mut i: usize = width;
    proof {
        lemma_pow256_mono(0, 16);
        assert(bytes@.subrange(at + width, at + width) =~= Seq::<u8>::empty());
    }
    while i > 0
        invariant
            i <= width,
            acc as nat == le_value(bytes@.subrange(at + i, at + width)),
            acc < pow256((width - i) as nat),
            pow256((width - i) as nat) <= pow256(16),
        decreases i,
    {
        i = i - 1;
        let b = bytes[at + i];
        proof {
            assert(bytes@.subrange(at + i, at + width)[0] == bytes@[at + i]);
            assert(bytes@.subrange(at + i, at + width).drop_first() =~= bytes@.subrange(
                at + i + 1,
                at + width,
            ));
            lemma_pow256_mono((width - i) as nat, 16);
            lemma_pow256_values();
            assert(pow256((width - i) as nat) == 256 * pow256((width - i - 1) as nat));
            assert(acc < pow256((width - i - 1) as nat));
            assert(256 * acc + b < pow256((width - i) as nat));
        }
        acc = acc * 256 + b as u128;
    }
    proof {
        assert(bytes@.subrange(at as int, at + width) =~= bytes@.subrange(at + 0, at + width));
    }
    acc
}

/// The powers of 256 at the primitive widths.
pub proof fn lemma_pow256_values()
    ensures
        pow256(1) == 0x100,
        pow256(2) == 0x10000,
        pow256(4) == 0x100000000,
        pow256(8) == 0x10000000000000000,
        pow256(16) == 0x100000000000000000000000000000000,
{
    reveal_with_fuel(crate::utils::pow256, 17);
}

/// Powers of 256 grow with the exponent.
pub proof fn lemma_pow256_mono(a: nat, b: nat)
    requires
        a <= b,
    ensures
        pow256(a) <= pow256(b),
        pow256(a) >= 1,
    decreases b,
{
    if b > 0 {
        if a == b {
            lemma_pow256_mono((a - 1) as nat, (b - 1) as nat);
        } else {
            lemma_pow256_mono(a, (b - 1) as nat);
        }
    }
}

/// The bytes of a number split at any width.
pub proof fn lemma_le_split(n: nat, w: nat, c: nat)
    requires
        w <= c,
    ensures
        le_bytes_of(n, c) == le_bytes_of(n, w) + le_bytes_of(
            n / pow256(w),
            (c - w) as nat,
        ),
    decreases w,
{
    if w == 0 {
        assert(pow256(0) == 1);
        assert(n / 1 == n) by {
            vstd::arithmetic::div_mod::lemma_div_basics(n as int);
        }
        assert(le_bytes_of(n, c) =~= le_bytes_of(n, 0) + le_bytes_of(n, c));
    } else {
        lemma_le_split(n / 256, (w - 1) as nat, (c - 1) as nat);
        assert((n / 256) / pow256((w - 1) as nat) == n / pow256(w)) by {
            lemma_pow256_mono(0, (w - 1) as nat);
            vstd::arithmetic::div_mod::lemma_div_denominator(
                n as int,
                256,
                pow256((w - 1) as nat) as int,
            );
        }
        assert(le_bytes_of(n, c) =~= le_bytes_of(n, w) + le_bytes_of(
            n / pow256(w),
            (c - w) as nat,
        ));
    }
}

/// Zero encodes as zero bytes.
pub proof fn lemma_le_zero(k: nat)
    ensures
        le_bytes_of(0, k) == crate::packed::zero_bytes(k),
    decreases k,
{
    if k > 0 {
        lemma_le_zero((k - 1) as nat);
    }
    assert(le_bytes_of(0, k) =~= crate::packed::zero_bytes(k));
}

/// Decoding the first `w` bytes of the 32-byte chunk a value below
/// `256^w` encodes returns the value: the typed round trip of every
/// little-endian primitive.
pub proof fn lemma_chunk_round_trip(n: nat, w: nat)
    requires
        1 <= w <= 32,
        n < pow256(w),
    ensures
        le_value(le_bytes_of(n, 32).take(w as int)) == n,
{
    lemma_le_split(n, w, 32);
    assert(n / pow256(w) == 0) by {
        vstd::arithmetic::div_mod::lemma_basic_div(n as int, pow256(w) as int);
    }
    lemma_le_bytes_len(n, w);
    lemma_le_bytes_len(0, (32 - w) as nat);
    assert(le_bytes_of(n, 32).take(w as int) =~= le_bytes_of(n, w));
    crate::utils::lemma_le_round_trip(n, w);
}

/// The chunk a primitive encodes passes the strict decoder: every byte
/// past the width is zero, and decoding the first width bytes returns the
/// value — the full typed round trip for every little-endian primitive
/// leaf, acceptance included.
pub proof fn lemma_chunk_well_formed(n: nat, w: nat)
    requires
        1 <= w <= 32,
        n < pow256(w),
    ensures
        le_bytes_of(n, 32).len() == 32,
        tail_zero(le_bytes_of(n, 32), w),
        le_value(le_bytes_of(n, 32).take(w as int)) == n,
{
    lemma_le_split(n, w, 32);
    assert(n / pow256(w) == 0) by {
        vstd::arithmetic::div_mod::lemma_basic_div(n as int, pow256(w) as int);
    }
    lemma_le_zero((32 - w) as nat);
    lemma_le_bytes_len(n, w);
    lemma_le_bytes_len(n, 32);
    lemma_le_bytes_len(0, (32 - w) as nat);
    assert forall|j: int| w <= j < 32 implies le_bytes_of(n, 32)[j] == 0 by {
        assert(le_bytes_of(n, 32)[j] == le_bytes_of(0, (32 - w) as nat)[j - w]);
        assert(crate::packed::zero_bytes((32 - w) as nat)[j - w] == 0);
    }
    lemma_chunk_round_trip(n, w);
}

/// An encoding has as many bytes as asked for.
pub proof fn lemma_le_bytes_len(n: nat, c: nat)
    ensures
        le_bytes_of(n, c).len() == c,
    decreases c,
{
    if c > 0 {
        lemma_le_bytes_len(n / 256, (c - 1) as nat);
    }
}


/// Whether every byte from `from` on is zero: the unused part of a leaf
/// must be blank for the leaf to decode.
pub open spec fn tail_zero(bytes: Seq<u8>, from: nat) -> bool {
    forall|j: int| from <= j < bytes.len() ==> bytes[j] == 0
}

/// Check that every byte from `from` on is zero.
#[verifier::loop_isolation(false)]
fn check_tail_zero(bytes: &Vec<u8>, from: usize) -> (r: bool)
    requires
        from <= bytes@.len(),
    ensures
        r == tail_zero(bytes@, from as nat),
{
    let n = bytes.len();
    let mut j: usize = from;
    while j < n
        invariant
            from <= j <= n,
            forall|q: int| from <= q < j ==> bytes@[q] == 0,
        decreases n - j,
    {
        if bytes[j] != 0 {
            return false;
        }
        j = j + 1;
    }
    true
}

/// The 32-byte chunk of a little-endian value.
fn le_chunk<T: LittleEndian>(value: &T) -> (r: Vec<u8>)
    ensures
        r@ == le_bytes_of(value.spec_nat(), 32),
        r@.len() == 32,
{
    proof {
        T::width_bounds();
        value.nat_bounds();
    }
    let mut out: Vec<u8> = Vec::new();
    value.append_le(&mut out);
    let w = T::width();
    let mut i: usize = w;
    proof {
        lemma_le_bytes_len(value.spec_nat(), T::spec_width());
        lemma_le_zero((32 - T::spec_width()) as nat);
        lemma_le_split(value.spec_nat(), T::spec_width(), 32);
        assert(value.spec_nat() / pow256(T::spec_width()) == 0) by {
            vstd::arithmetic::div_mod::lemma_basic_div(
                value.spec_nat() as int,
                pow256(T::spec_width()) as int,
            );
        }
    }
    while i < 32
        invariant
            T::spec_width() <= i <= 32,
            out@.len() == i,
            out@ =~= le_bytes_of(value.spec_nat(), i as nat),
        decreases 32 - i,
    {
        proof {
            lemma_le_split(value.spec_nat(), i as nat, i as nat + 1);
            lemma_le_bytes_len(value.spec_nat(), i as nat);
            lemma_pow256_mono(T::spec_width(), i as nat);
            assert(value.spec_nat() / pow256(i as nat) == 0) by {
                value.nat_bounds();
                lemma_pow256_mono(T::spec_width(), i as nat);
                vstd::arithmetic::div_mod::lemma_basic_div(
                    value.spec_nat() as int,
                    pow256(i as nat) as int,
                );
            }
            assert(le_bytes_of(0, 0) =~= Seq::<u8>::empty());
            assert(le_bytes_of(0, 1) =~= seq![0u8]);
            assert(le_bytes_of(value.spec_nat(), i as nat + 1) =~= le_bytes_of(
                value.spec_nat(),
                i as nat,
            ).push(0u8));
        }
        out.push(0u8);
        i = i + 1;
    }
    out
}

impl LittleEndian for u8 {
    open spec fn spec_width() -> nat {
        1
    }

    open spec fn spec_nat(&self) -> nat {
        *self as nat
    }

    proof fn width_bounds() {
    }

    proof fn nat_bounds(&self) {
        lemma_pow256_values();
    }

    fn width() -> usize {
        1
    }

    fn append_le(&self, out: &mut Vec<u8>) {
        append_le_of(*self as u128, 1, out);
    }

    fn from_le(bytes: &Vec<u8>, at: usize) -> (r: Self) {
        proof {
            lemma_pow256_values();
            lemma_le_value_bound(bytes@.subrange(at as int, at + 1));
        }
        read_le_at(bytes, at, 1) as u8
    }
}

impl LittleEndian for u16 {
    open spec fn spec_width() -> nat {
        2
    }

    open spec fn spec_nat(&self) -> nat {
        *self as nat
    }

    proof fn width_bounds() {
    }

    proof fn nat_bounds(&self) {
        lemma_pow256_values();
    }

    fn width() -> usize {
        2
    }

    fn append_le(&self, out: &mut Vec<u8>) {
        append_le_of(*self as u128, 2, out);
    }

    fn from_le(bytes: &Vec<u8>, at: usize) -> (r: Self) {
        proof {
            lemma_pow256_values();
            lemma_le_value_bound(bytes@.subrange(at as int, at + 2));
        }
        read_le_at(bytes, at, 2) as u16
    }
}

impl LittleEndian for u32 {
    open spec fn spec_width() -> nat {
        4
    }

    open spec fn spec_nat(&self) -> nat {
        *self as nat
    }

    proof fn width_bounds() {
    }

    proof fn nat_bounds(&self) {
        lemma_pow256_values();
    }

    fn width() -> usize {
        4
    }

    fn append_le(&self, out: &mut Vec<u8>) {
        append_le_of(*self as u128, 4, out);
    }

    fn from_le(bytes: &Vec<u8>, at: usize) -> (r: Self) {
        proof {
            lemma_pow256_values();
            lemma_le_value_bound(bytes@.subrange(at as int, at + 4));
        }
        read_le_at(bytes, at, 4) as u32
    }
}

impl LittleEndian for u64 {
    open spec fn spec_width() -> nat {
        8
    }

    open spec fn spec_nat(&self) -> nat {
        *self as nat
    }

    proof fn width_bounds() {
    }

    proof fn nat_bounds(&self) {
        lemma_pow256_values();
    }

    fn width() -> usize {
        8
    }

    fn append_le(&self, out: &mut Vec<u8>) {
        append_le_of(*self as u128, 8, out);
    }

    fn from_le(bytes: &Vec<u8>, at: usize) -> (r: Self) {
        proof {
            lemma_pow256_values();
            lemma_le_value_bound(bytes@.subrange(at as int, at + 8));
        }
        read_le_at(bytes, at, 8) as u64
    }
}

impl LittleEndian for u128 {
    open spec fn spec_width() -> nat {
        16
    }

    open spec fn spec_nat(&self) -> nat {
        *self as nat
    }

    proof fn width_bounds() {
    }

    proof fn nat_bounds(&self) {
        lemma_pow256_values();
    }

    fn width() -> usize {
        16
    }

    fn append_le(&self, out: &mut Vec<u8>) {
        append_le_of(*self, 16, out);
    }

    fn from_le(bytes: &Vec<u8>, at: usize) -> (r: Self) {
        proof {
            lemma_pow256_values();
            lemma_le_value_bound(bytes@.subrange(at as int, at + 16));
        }
        read_le_at(bytes, at, 16)
    }
}

/// A little-endian decoding stays below 256 to the byte count.
pub proof fn lemma_le_value_bound(bytes: Seq<u8>)
    ensures
        le_value(bytes) < pow256(bytes.len()),
    decreases bytes.len(),
{
    if bytes.len() > 0 {
        lemma_le_value_bound(bytes.drop_first());
    }
}


impl TreeSpec for u8 {
    open spec fn tree_root_spec(&self, unit: bool, end: Seq<u8>) -> ValueRep {
        ValueRep::End(le_bytes_of(self.spec_nat(), 32))
    }
}

impl<DB: WriteBackend> IntoTree<DB> for u8 {
    fn into_tree(&self, db: &mut DB) -> (r: Result<Value, Error<DB::Error>>)
        ensures
            final(db).store() == old(db).store(),
            r is Ok,
    {
        Ok(Value::End(le_chunk(self)))
    }
}

impl<DB: WriteBackend> FromTree<DB> for u8 {
    fn from_tree(root: &Value, db: &mut DB) -> (r: Result<Self, Error<DB::Error>>)
        ensures
            match r {
                Ok(x) => root@ matches ValueRep::End(bytes) && bytes.len() == 32 && tail_zero(
                    bytes,
                    1,
                ) && x.spec_nat() == le_value(bytes.take(1)),
                Err(_) => root@ is Intermediate || root@.bytes().len() != 32 || !tail_zero(
                    root@.bytes(),
                    1,
                ),
            },
    {
        match root {
            Value::End(bytes) => {
                if bytes.len() != 32 {
                    return Err(Error::CorruptedDatabase);
                }
                if !check_tail_zero(bytes, 1) {
                    return Err(Error::CorruptedDatabase);
                }
                proof {
                    assert(bytes@.subrange(0, 1) =~= bytes@.take(1));
                }
                Ok(<u8 as LittleEndian>::from_le(bytes, 0))
            },
            Value::Intermediate(_) => Err(Error::CorruptedDatabase),
        }
    }
}


impl TreeSpec for u16 {
    open spec fn tree_root_spec(&self, unit: bool, end: Seq<u8>) -> ValueRep {
        ValueRep::End(le_bytes_of(self.spec_nat(), 32))
    }
}

impl<DB: WriteBackend> IntoTree<DB> for u16 {
    fn into_tree(&self, db: &mut DB) -> (r: Result<Value, Error<DB::Error>>)
        ensures
            final(db).store() == old(db).store(),
            r is Ok,
    {
        Ok(Value::End(le_chunk(self)))
    }
}

impl<DB: WriteBackend> FromTree<DB> for u16 {
    fn from_tree(root: &Value, db: &mut DB) -> (r: Result<Self, Error<DB::Error>>)
        ensures
            match r {
                Ok(x) => root@ matches ValueRep::End(bytes) && bytes.len() == 32 && tail_zero(
                    bytes,
                    2,
                ) && x.spec_nat() == le_value(bytes.take(2)),
                Err(_) => root@ is Intermediate || root@.bytes().len() != 32 || !tail_zero(
                    root@.bytes(),
                    2,
                ),
            },
    {
        match root {
            Value::End(bytes) => {
                if bytes.len() != 32 {
                    return Err(Error::CorruptedDatabase);
                }
                if !check_tail_zero(bytes, 2) {
                    return Err(Error::CorruptedDatabase);
                }
                proof {
                    assert(bytes@.subrange(0, 2) =~= bytes@.take(2));
                }
                Ok(<u16 as LittleEndian>::from_le(bytes, 0))
            },
            Value::Intermediate(_) => Err(Error::CorruptedDatabase),
        }
    }
}


impl TreeSpec for u32 {
    open spec fn tree_root_spec(&self, unit: bool, end: Seq<u8>) -> ValueRep {
        ValueRep::End(le_bytes_of(self.spec_nat(), 32))
    }
}

impl<DB: WriteBackend> IntoTree<DB> for u32 {
    fn into_tree(&self, db: &mut DB) -> (r: Result<Value, Error<DB::Error>>)
        ensures
            final(db).store() == old(db).store(),
            r is Ok,
    {
        Ok(Value::End(le_chunk(self)))
    }
}

impl<DB: WriteBackend> FromTree<DB> for u32 {
    fn from_tree(root: &Value, db: &mut DB) -> (r: Result<Self, Error<DB::Error>>)
        ensures
            match r {
                Ok(x) => root@ matches ValueRep::End(bytes) && bytes.len() == 32 && tail_zero(
                    bytes,
                    4,
                ) && x.spec_nat() == le_value(bytes.take(4)),
                Err(_) => root@ is Intermediate || root@.bytes().len() != 32 || !tail_zero(
                    root@.bytes(),
                    4,
                ),
            },
    {
        match root {
            Value::End(bytes) => {
                if bytes.len() != 32 {
                    return Err(Error::CorruptedDatabase);
                }
                if !check_tail_zero(bytes, 4) {
                    return Err(Error::CorruptedDatabase);
                }
                proof {
                    assert(bytes@.subrange(0, 4) =~= bytes@.take(4));
                }
                Ok(<u32 as LittleEndian>::from_le(bytes, 0))
            },
            Value::Intermediate(_) => Err(Error::CorruptedDatabase),
        }
    }
}


impl TreeSpec for u64 {
    open spec fn tree_root_spec(&self, unit: bool, end: Seq<u8>) -> ValueRep {
        ValueRep::End(le_bytes_of(self.spec_nat(), 32))
    }
}

impl<DB: WriteBackend> IntoTree<DB> for u64 {
    fn into_tree(&self, db: &mut DB) -> (r: Result<Value, Error<DB::Error>>)
        ensures
            final(db).store() == old(db).store(),
            r is Ok,
    {
        Ok(Value::End(le_chunk(self)))
    }
}

impl<DB: WriteBackend> FromTree<DB> for u64 {
    fn from_tree(root: &Value, db: &mut DB) -> (r: Result<Self, Error<DB::Error>>)
        ensures
            match r {
                Ok(x) => root@ matches ValueRep::End(bytes) && bytes.len() == 32 && tail_zero(
                    bytes,
                    8,
                ) && x.spec_nat() == le_value(bytes.take(8)),
                Err(_) => root@ is Intermediate || root@.bytes().len() != 32 || !tail_zero(
                    root@.bytes(),
                    8,
                ),
            },
    {
        match root {
            Value::End(bytes) => {
                if bytes.len() != 32 {
                    return Err(Error::CorruptedDatabase);
                }
                if !check_tail_zero(bytes, 8) {
                    return Err(Error::CorruptedDatabase);
                }
                proof {
                    assert(bytes@.subrange(0, 8) =~= bytes@.take(8));
                }
                Ok(<u64 as LittleEndian>::from_le(bytes, 0))
            },
            Value::Intermediate(_) => Err(Error::CorruptedDatabase),
        }
    }
}


impl TreeSpec for u128 {
    open spec fn tree_root_spec(&self, unit: bool, end: Seq<u8>) -> ValueRep {
        ValueRep::End(le_bytes_of(self.spec_nat(), 32))
    }
}

impl<DB: WriteBackend> IntoTree<DB> for u128 {
    fn into_tree(&self, db: &mut DB) -> (r: Result<Value, Error<DB::Error>>)
        ensures
            final(db).store() == old(db).store(),
            r is Ok,
    {
        Ok(Value::End(le_chunk(self)))
    }
}

impl<DB: WriteBackend> FromTree<DB> for u128 {
    fn from_tree(root: &Value, db: &mut DB) -> (r: Result<Self, Error<DB::Error>>)
        ensures
            match r {
                Ok(x) => root@ matches ValueRep::End(bytes) && bytes.len() == 32 && tail_zero(
                    bytes,
                    16,
                ) && x.spec_nat() == le_value(bytes.take(16)),
                Err(_) => root@ is Intermediate || root@.bytes().len() != 32 || !tail_zero(
                    root@.bytes(),
                    16,
                ),
            },
    {
        match root {
            Value::End(bytes) => {
                if bytes.len() != 32 {
                    return Err(Error::CorruptedDatabase);
                }
                if !check_tail_zero(bytes, 16) {
                    return Err(Error::CorruptedDatabase);
                }
                proof {
                    assert(bytes@.subrange(0, 16) =~= bytes@.take(16));
                }
                Ok(<u128 as LittleEndian>::from_le(bytes, 0))
            },
            Value::Intermediate(_) => Err(Error::CorruptedDatabase),
        }
    }
}

impl TreeSpec for bool {
    open spec fn tree_root_spec(&self, unit: bool, end: Seq<u8>) -> ValueRep {
        ValueRep::End(
            le_bytes_of(
                if *self {
                    1
                } else {
                    0
                },
                32,
            ),
        )
    }
}

impl<DB: WriteBackend> IntoTree<DB> for bool {
    fn into_tree(&self, db: &mut DB) -> (r: Result<Value, Error<DB::Error>>)
        ensures
            final(db).store() == old(db).store(),
            r is Ok,
    {
        let byte: u8 = if *self {
            1
        } else {
            0
        };
        Ok(Value::End(le_chunk(&byte)))
    }
}

impl<DB: WriteBackend> FromTree<DB> for bool {
    fn from_tree(root: &Value, db: &mut DB) -> (r: Result<Self, Error<DB::Error>>)
        ensures
            match r {
                Ok(x) => root@ matches ValueRep::End(bytes) && bytes.len() == 32 && tail_zero(
                    bytes,
                    1,
                ) && le_value(bytes.take(1)) <= 1 && x == (le_value(bytes.take(1)) == 1),
                Err(_) => root@ is Intermediate || root@.bytes().len() != 32 || !tail_zero(
                    root@.bytes(),
                    1,
                ) || le_value(root@.bytes().take(1)) > 1,
            },
    {
        match u8::from_tree(root, db) {
            Ok(byte) => {
                if byte > 1 {
                    Err(Error::CorruptedDatabase)
                } else {
                    Ok(byte == 1)
                }
            },
            Err(e) => Err(e),
        }
    }
}


impl TreeSpec for () {
    open spec fn tree_root_spec(&self, unit: bool, end: Seq<u8>) -> ValueRep {
        ValueRep::End(Seq::empty())
    }
}

impl<DB: WriteBackend> IntoTree<DB> for () {
    fn into_tree(&self, db: &mut DB) -> (r: Result<Value, Error<DB::Error>>)
        ensures
            final(db).store() == old(db).store(),
            r is Ok,
    {
        let blank: Vec<u8> = Vec::new();
        proof {
            assert(blank@ =~= Seq::<u8>::empty());
        }
        Ok(Value::End(blank))
    }
}

impl<DB: WriteBackend> FromTree<DB> for () {
    fn from_tree(root: &Value, db: &mut DB) -> (r: Result<Self, Error<DB::Error>>)
        ensures
            (r is Ok) == (root@ == ValueRep::End(Seq::<u8>::empty())),
            r matches Err(e) ==> e is CorruptedDatabase,
    {
        match root {
            Value::End(bytes) => {
                if bytes.len() == 0 {
                    proof {
                        assert(bytes@ =~= Seq::<u8>::empty());
                    }
                    Ok(())
                } else {
                    Err(Error::CorruptedDatabase)
                }
            },
            Value::Intermediate(_) => Err(Error::CorruptedDatabase),
        }
    }
}

impl<A: TreeSpec, B: TreeSpec> TreeSpec for (A, B) {
    open spec fn tree_root_spec(&self, unit: bool, end: Seq<u8>) -> ValueRep {
        chunks_root(
            seq![self.0.tree_root_spec(unit, end), self.1.tree_root_spec(unit, end)],
            1,
            unit,
            end,
        )
    }
}

impl<DB: WriteBackend, A: IntoTree<DB>, B: IntoTree<DB>> IntoTree<DB> for (A, B) {
    fn into_tree(&self, db: &mut DB) -> (r: Result<Value, Error<DB::Error>>) {
        let a = match self.0.into_tree(db) {
            Ok(v) => v,
            Err(e) => {
                return Err(e);
            },
        };
        let b = match self.1.into_tree(db) {
            Ok(v) => v,
            Err(e) => {
                return Err(e);
            },
        };
        let mut children: Vec<Value> = Vec::new();
        children.push(a);
        children.push(b);
        let ghost cfg = db_config(db);
        let ghost s1 = db.store();
        proof {
            assert(depth_for(2) == 1) by {
                assert(depth_for(2) == 1 + depth_for(1));
            }
            if cfg.noop {
                lemma_vector_tree_noop(s1, values_rep(children@), 1, cfg);
            }
        }
        let out = match vector_tree(&children, db, None) {
            Ok(v) => v,
            Err(e) => {
                return Err(e);
            },
        };
        proof {
            assert(depth_for(2) == 1) by {
                assert(depth_for(2) == 1 + depth_for(1));
            }
            lemma_vector_tree_root(s1, values_rep(children@), 1, cfg);
            assert(values_rep(children@) =~= seq![
                self.0.tree_root_spec(cfg.unit, cfg.end),
                self.1.tree_root_spec(cfg.unit, cfg.end),
            ]);
        }
        Ok(out)
    }
}

impl<A: TreeSpec, B: TreeSpec, C: TreeSpec> TreeSpec for (A, B, C) {
    open spec fn tree_root_spec(&self, unit: bool, end: Seq<u8>) -> ValueRep {
        chunks_root(
            seq![
                self.0.tree_root_spec(unit, end),
                self.1.tree_root_spec(unit, end),
                self.2.tree_root_spec(unit, end),
            ],
            2,
            unit,
            end,
        )
    }
}

impl<DB: WriteBackend, A: IntoTree<DB>, B: IntoTree<DB>, C: IntoTree<DB>> IntoTree<DB> for (
    A,
    B,
    C,
) {
    fn into_tree(&self, db: &mut DB) -> (r: Result<Value, Error<DB::Error>>) {
        let a = match self.0.into_tree(db) {
            Ok(v) => v,
            Err(e) => {
                return Err(e);
            },
        };
        let b = match self.1.into_tree(db) {
            Ok(v) => v,
            Err(e) => {
                return Err(e);
            },
        };
        let c = match self.2.into_tree(db) {
            Ok(v) => v,
            Err(e) => {
                return Err(e);
            },
        };
        let mut children: Vec<Value> = Vec::new();
        children.push(a);
        children.push(b);
        children.push(c);
        let ghost cfg = db_config(db);
        let ghost s1 = db.store();
        proof {
            assert(depth_for(3) == 2) by {
                assert(depth_for(3) == 1 + depth_for(2));
                assert(depth_for(2) == 1 + depth_for(1));
            }
            if cfg.noop {
                lemma_vector_tree_noop(s1, values_rep(children@), 2, cfg);
            }
        }
        let out = match vector_tree(&children, db, None) {
            Ok(v) => v,
            Err(e) => {
                return Err(e);
            },
        };
        proof {
            assert(depth_for(3) == 2) by {
                assert(depth_for(3) == 1 + depth_for(2));
                assert(depth_for(2) == 1 + depth_for(1));
            }
            lemma_vector_tree_root(s1, values_rep(children@), 2, cfg);
            assert(values_rep(children@) =~= seq![
                self.0.tree_root_spec(cfg.unit, cfg.end),
                self.1.tree_root_spec(cfg.unit, cfg.end),
                self.2.tree_root_spec(cfg.unit, cfg.end),
            ]);
        }
        Ok(out)
    }
}

/// Calculate a merkle tree root over the throwaway backend, dismissing
/// the tree.  The empty-subtree policy is the inherited one over the
/// all-zero leaf, as the canonical serialization asks.
pub fn tree_root<T: IntoTree<crate::memory::NoopBackend>>(value: &T) -> (r: Result<
    Value,
    Error<crate::memory::NoopBackendError>,
>)
    ensures
        r is Ok,
        r matches Ok(v) ==> v@ == value.tree_root_spec(false, crate::packed::zero_bytes(32)),
{
    let mut zeros: Vec<u8> = Vec::new();
    let mut i: usize = 0;
    while i < 32
        invariant
            i <= 32,
            zeros@.len() == i,
            forall|j: int| 0 <= j < i ==> zeros@[j] == 0u8,
        decreases 32 - i,
    {
        zeros.push(0u8);
        i = i + 1;
    }
    proof {
        assert(zeros@ =~= crate::packed::zero_bytes(32));
    }
    let mut db = crate::memory::NoopBackend::new_with_inherited_empty_value(zeros);
    value.into_tree(&mut db)
}


/// The concatenated little-endian bytes of a sequence of values.
pub open spec fn uints_bytes<T: LittleEndian>(values: Seq<T>) -> Seq<u8>
    decreases values.len(),
{
    if values.len() == 0 {
        Seq::empty()
    } else {
        le_bytes_of(values[0].spec_nat(), T::spec_width()) + uints_bytes(values.drop_first())
    }
}

/// Appending a value appends its bytes.
pub proof fn lemma_uints_bytes_push<T: LittleEndian>(values: Seq<T>, v: T)
    ensures
        uints_bytes(values.push(v)) == uints_bytes(values) + le_bytes_of(
            v.spec_nat(),
            T::spec_width(),
        ),
    decreases values.len(),
{
    lemma_le_bytes_len(v.spec_nat(), T::spec_width());
    if values.len() == 0 {
        let p = values.push(v);
        assert(p.len() == 1);
        assert(p[0] == v);
        assert(uints_bytes(p) == le_bytes_of(p[0].spec_nat(), T::spec_width()) + uints_bytes(
            p.drop_first(),
        ));
        assert(p.drop_first() =~= Seq::<T>::empty());
        assert(uints_bytes(p.drop_first()) =~= Seq::<u8>::empty());
        assert(uints_bytes(values) =~= Seq::<u8>::empty());
        assert(uints_bytes(p) =~= uints_bytes(values) + le_bytes_of(
            v.spec_nat(),
            T::spec_width(),
        ));
    } else {
        lemma_uints_bytes_push(values.drop_first(), v);
        lemma_le_bytes_len(values[0].spec_nat(), T::spec_width());
        assert(values.push(v).drop_first() =~= values.drop_first().push(v));
        assert(values.push(v)[0] == values[0]);
        assert(uints_bytes(values.push(v)) =~= uints_bytes(values) + le_bytes_of(
            v.spec_nat(),
            T::spec_width(),
        ));
    }
}

/// Packing bytes into 32-byte leaves, the last zero-padded.
pub open spec fn bytes_chunks(bytes: Seq<u8>) -> Seq<ValueRep>
    decreases bytes.len(),
{
    if bytes.len() == 0 {
        Seq::empty()
    } else if bytes.len() <= 32 {
        seq![ValueRep::End(bytes + crate::packed::zero_bytes((32 - bytes.len()) as nat))]
    } else {
        seq![ValueRep::End(bytes.take(32))] + bytes_chunks(bytes.skip(32))
    }
}

/// The concatenated little-endian bytes of the given values.
#[verifier::loop_isolation(false)]
fn uints_to_bytes<T: LittleEndian>(values: &Vec<T>) -> (r: Vec<u8>)
    requires
        values@.len() <= usize::MAX / 32,
    ensures
        r@ == uints_bytes(values@),
        r@.len() == values@.len() * T::spec_width(),
{
    let n = values.len();
    let mut out: Vec<u8> = Vec::new();
    let mut i: usize = 0;
    proof {
        assert(values@.take(0) =~= Seq::<T>::empty());
        assert(uints_bytes(values@.take(0)) =~= Seq::<u8>::empty());
        assert(out@ =~= uints_bytes(values@.take(0)));
    }
    while i < n
        invariant
            i <= n,
            out@ == uints_bytes(values@.take(i as int)),
            out@.len() == i * T::spec_width(),
        decreases n - i,
    {
        proof {
            T::width_bounds();
            vstd::arithmetic::mul::lemma_mul_inequality(i as int + 1, n as int, 32);
            vstd::arithmetic::mul::lemma_mul_inequality(
                T::spec_width() as int,
                32,
                i as int + 1,
            );
            vstd::arithmetic::mul::lemma_mul_is_commutative(T::spec_width() as int, i as int + 1);
            vstd::arithmetic::mul::lemma_mul_is_distributive_add_other_way(
                T::spec_width() as int,
                i as int,
                1,
            );
            lemma_uints_bytes_push(values@.take(i as int), values@[i as int]);
            assert(values@.take(i as int).push(values@[i as int]) =~= values@.take(i as int + 1));
            lemma_le_bytes_len(values@[i as int].spec_nat(), T::spec_width());
        }
        values[i].append_le(&mut out);
        i = i + 1;
    }
    proof {
        assert(values@.take(n as int) =~= values@);
    }
    out
}

/// Pack a byte vector into zero-padded 32-byte leaves.
#[verifier::loop_isolation(false)]
fn chunkify(bytes: &Vec<u8>) -> (r: Vec<Value>)
    ensures
        values_rep(r@) == bytes_chunks(bytes@),
        r@.len() == spec_host_len(bytes@.len(), 32, 1),
{
    let n = bytes.len();
    let mut out: Vec<Value> = Vec::new();
    let mut j: usize = 0;
    proof {
        assert(bytes@.skip(0) =~= bytes@);
        assert(values_rep(out@) =~= Seq::<ValueRep>::empty());
        lemma_bytes_chunks_count(bytes@);
    }
    while j < n
        invariant
            j <= n,
            values_rep(out@) + bytes_chunks(bytes@.skip(j as int)) =~= bytes_chunks(bytes@),
        decreases n - j,
    {
        let take = if n - j < 32 {
            n - j
        } else {
            32
        };
        let mut chunk: Vec<u8> = Vec::new();
        let mut k: usize = 0;
        while k < take
            invariant
                k <= take,
                take <= 32,
                j + take <= n,
                n == bytes@.len(),
                chunk@ =~= bytes@.subrange(j as int, j + k),
            decreases take - k,
        {
            proof {
                assert(bytes@.subrange(j as int, j + k + 1) =~= bytes@.subrange(
                    j as int,
                    j + k,
                ).push(bytes@[j + k]));
            }
            chunk.push(bytes[j + k]);
            k = k + 1;
        }
        while k < 32
            invariant
                take <= k <= 32,
                j + take <= n,
                n == bytes@.len(),
                chunk@ =~= bytes@.subrange(j as int, j + take) + crate::packed::zero_bytes(
                    (k - take) as nat,
                ),
            decreases 32 - k,
        {
            proof {
                assert(bytes@.subrange(j as int, j + take) + crate::packed::zero_bytes(
                    (k + 1 - take) as nat,
                ) =~= (bytes@.subrange(j as int, j + take) + crate::packed::zero_bytes(
                    (k - take) as nat,
                )).push(0u8));
            }
            chunk.push(0u8);
            k = k + 1;
        }
        let ghost rest = bytes@.skip(j as int);
        proof {
            if rest.len() <= 32 {
                assert(bytes@.subrange(j as int, j + take) =~= rest);
                assert(chunk@ =~= rest + crate::packed::zero_bytes((32 - rest.len()) as nat));
                assert(bytes_chunks(rest) =~= seq![ValueRep::End(chunk@)]);
                assert(bytes@.skip(j + take) =~= Seq::<u8>::empty());
            } else {
                assert(bytes@.subrange(j as int, j + take) =~= rest.take(32));
                assert(crate::packed::zero_bytes(0) =~= Seq::<u8>::empty());
                assert(chunk@ =~= rest.take(32));
                assert(rest.skip(32) =~= bytes@.skip(j + 32));
                assert(bytes_chunks(rest) =~= seq![ValueRep::End(chunk@)] + bytes_chunks(
                    bytes@.skip(j + take),
                ));
            }
            assert(values_rep(out@.push(Value::End(chunk))) =~= values_rep(out@).push(
                ValueRep::End(chunk@),
            ));
            assert(values_rep(out@.push(Value::End(chunk))) + bytes_chunks(
                bytes@.skip(j + take),
            ) =~= bytes_chunks(bytes@));
        }
        let sealed = Value::End(chunk);
        out.push(sealed);
        j = j + take;
    }
    proof {
        assert(bytes@.skip(n as int) =~= Seq::<u8>::empty());
        assert(bytes_chunks(Seq::<u8>::empty()) =~= Seq::<ValueRep>::empty());
        assert(values_rep(out@) =~= bytes_chunks(bytes@));
        lemma_bytes_chunks_count(bytes@);
    }
    out
}

/// How many leaves a byte string packs into.
pub proof fn lemma_bytes_chunks_count(bytes: Seq<u8>)
    ensures
        bytes_chunks(bytes).len() == spec_host_len(bytes.len(), 32, 1),
    decreases bytes.len(),
{
    vstd::arithmetic::mul::lemma_mul_basics(bytes.len() as int);
    if bytes.len() > 32 {
        lemma_bytes_chunks_count(bytes.skip(32));
        vstd::arithmetic::mul::lemma_mul_basics(bytes.skip(32).len() as int);
        vstd::arithmetic::div_mod::lemma_fundamental_div_mod(bytes.len() as int, 32);
        vstd::arithmetic::div_mod::lemma_fundamental_div_mod(bytes.skip(32).len() as int, 32);
        assert((bytes.len() - 32) % 32 == bytes.len() % 32 && (bytes.len() - 32) / 32 + 1
            == bytes.len() / 32) by {
            vstd::arithmetic::div_mod::lemma_sub_mod_noop(bytes.len() as int, 32, 32);
            vstd::arithmetic::div_mod::lemma_div_minus_one(bytes.len() as int, 32);
        }
    }
}


/// Elemental `Vec` reference: a fixed-length vector of primitives packed
/// into shared leaves.
pub struct ElementalFixedVecRef<'a, T>(pub &'a Vec<T>);

/// Elemental `Vec` value: a fixed-length vector of primitives packed into
/// shared leaves.
pub struct ElementalFixedVec<T>(pub Vec<T>);

/// Variable `Vec` reference: a list of primitives with its length mixed
/// into the root.
pub struct ElementalVariableVecRef<'a, T>(pub &'a Vec<T>);

/// Variable `Vec` value: a list of primitives with its length mixed into
/// the root.
pub struct ElementalVariableVec<T>(pub Vec<T>);

/// The leaves a packed vector of primitives serializes to.
pub open spec fn packed_chunks<T: LittleEndian>(values: Seq<T>) -> Seq<ValueRep> {
    bytes_chunks(uints_bytes(values))
}

/// The root of a packed vector of primitives under the given bound.
pub open spec fn packed_vector_root<T: LittleEndian>(
    values: Seq<T>,
    max_len: Option<nat>,
    unit: bool,
    end: Seq<u8>,
) -> ValueRep {
    let target: nat = match max_len {
        Some(m) => spec_host_len((m * T::spec_width()) as nat, 32, 1),
        None => packed_chunks(values).len(),
    };
    chunks_root(packed_chunks(values), depth_for(target), unit, end)
}

/// The store, root and success of serializing a packed vector of
/// primitives sized for the given bound.
pub open spec fn spec_packed_vector_tree<T: LittleEndian>(
    s: StoreRep,
    values: Seq<T>,
    max_len: Option<nat>,
    c: DbConfig,
) -> (StoreRep, ValueRep, bool) {
    let target: nat = match max_len {
        Some(m) => spec_host_len((m * T::spec_width()) as nat, 32, 1),
        None => packed_chunks(values).len(),
    };
    spec_vector_tree(s, packed_chunks(values), depth_for(target), c)
}

/// The store, root and success of serializing a packed list: the packed
/// vector at the bound's capacity with the length mixed in.
pub open spec fn spec_packed_list_tree<T: LittleEndian>(
    s: StoreRep,
    values: Seq<T>,
    max_len: Option<nat>,
    c: DbConfig,
) -> (StoreRep, ValueRep, bool) {
    let o = spec_packed_vector_tree::<T>(s, values, max_len, c);
    if !o.2 {
        (o.0, o.1, false)
    } else {
        let left = packed_vector_root(values, max_len, c.unit, c.end);
        let len_leaf = ValueRep::End(le_bytes_of(values.len(), 32));
        let key = crate::traits::hash_of_pair(left, len_leaf);
        let ins = crate::store::store_insert_res(o.0, key, (left, len_leaf));
        (
            (if c.noop {
                o.0
            } else {
                ins.0
            }),
            ValueRep::Intermediate(key),
            c.noop || ins.1,
        )
    }
}

/// Serialize a vector of primitives into packed leaves sized for
/// `max_len` values.
#[verifier::rlimit(30)]
pub fn into_compact_vector_tree<T: LittleEndian, DB: WriteBackend>(
    values: &Vec<T>,
    db: &mut DB,
    max_len: Option<usize>,
) -> (r: Result<Value, Error<DB::Error>>)
    requires
        old(db).wf(),
        values@.len() <= usize::MAX / 32,
        match max_len {
            Some(m) => values@.len() <= m && m <= usize::MAX / 32,
            None => true,
        },
    ensures
        final(db).wf(),
        same_config(final(db), old(db)),
        ({
            let cfg = db_config(old(db));
            let target: nat = match max_len {
                Some(m) => spec_host_len((m * T::spec_width()) as nat, 32, 1),
                None => packed_chunks(values@).len(),
            };
            let o = spec_vector_tree(
                old(db).store(),
                packed_chunks(values@),
                depth_for(target),
                cfg,
            );
            final(db).store() == o.0 && match r {
                Ok(v) => o.2 && v@ == packed_vector_root(
                    values@,
                    match max_len {
                        Some(m) => Some(m as nat),
                        None => None,
                    },
                    cfg.unit,
                    cfg.end,
                ),
                Err(_) => !o.2,
            }
        }),
{
    let bytes = uints_to_bytes(values);
    let chunks = chunkify(&bytes);
    let ghost cfg = db_config(db);
    let ghost s0 = db.store();
    let host_cap = match max_len {
        Some(m) => {
            proof {
                T::width_bounds();
                vstd::arithmetic::mul::lemma_mul_inequality(T::spec_width() as int, 32, m as int);
                vstd::arithmetic::mul::lemma_mul_is_commutative(T::spec_width() as int, m as int);
                vstd::arithmetic::div_mod::lemma_div_is_ordered_by_denominator(
                    (m * T::spec_width()) as int,
                    1,
                    32,
                );
                vstd::arithmetic::div_mod::lemma_div_basics((m * T::spec_width()) as int);
            }
            let w = T::width();
            Some(crate::utils::host_len(m * w, 32, 1))
        },
        None => None,
    };
    proof {
        T::width_bounds();
        vstd::arithmetic::mul::lemma_mul_inequality(
            T::spec_width() as int,
            32,
            values@.len() as int,
        );
        vstd::arithmetic::mul::lemma_mul_is_commutative(
            T::spec_width() as int,
            values@.len() as int,
        );
        vstd::arithmetic::mul::lemma_mul_inequality(
            values@.len() as int,
            (usize::MAX / 32) as int,
            32,
        );
        vstd::arithmetic::mul::lemma_mul_is_commutative(values@.len() as int, 32);
        vstd::arithmetic::mul::lemma_mul_is_commutative((usize::MAX / 32) as int, 32);
        vstd::arithmetic::div_mod::lemma_fundamental_div_mod(usize::MAX as int, 32);
        vstd::arithmetic::div_mod::lemma_mod_bound(usize::MAX as int, 32);
        assert(bytes@.len() <= usize::MAX);
        vstd::arithmetic::mul::lemma_mul_basics(bytes@.len() as int);
        vstd::arithmetic::div_mod::lemma_div_is_ordered(
            bytes@.len() as int,
            usize::MAX as int,
            32,
        );
        assert(chunks@.len() <= usize::MAX / 32 + 1);
        match max_len {
            Some(m) => {
                lemma_chunk_cap_holds::<T>(values@, m as nat);
                vstd::arithmetic::mul::lemma_mul_inequality(
                    T::spec_width() as int,
                    32,
                    m as int,
                );
                vstd::arithmetic::mul::lemma_mul_is_commutative(T::spec_width() as int, m as int);
                vstd::arithmetic::mul::lemma_mul_inequality(
                    m as int,
                    (usize::MAX / 32) as int,
                    32,
                );
                vstd::arithmetic::mul::lemma_mul_is_commutative(m as int, 32);
                vstd::arithmetic::mul::lemma_mul_basics((m * T::spec_width()) as int);
                vstd::arithmetic::div_mod::lemma_div_is_ordered(
                    (m * T::spec_width()) as int,
                    usize::MAX as int,
                    32,
                );
            },
            None => {},
        }
        assert(values_rep(chunks@) == packed_chunks(values@));
    }
    let out = match vector_tree(&chunks, db, host_cap) {
        Ok(v) => v,
        Err(e) => {
            return Err(e);
        },
    };
    proof {
        let target: nat = match max_len {
            Some(m) => spec_host_len((m * T::spec_width()) as nat, 32, 1),
            None => packed_chunks(values@).len(),
        };
        lemma_vector_tree_root(s0, packed_chunks(values@), depth_for(target), cfg);
    }
    Ok(out)
}

/// A vector within its bound packs into no more leaves than the bound
/// allows.
pub proof fn lemma_chunk_cap_holds<T: LittleEndian>(values: Seq<T>, m: nat)
    requires
        values.len() <= m,
    ensures
        packed_chunks(values).len() <= spec_host_len((m * T::spec_width()) as nat, 32, 1),
        spec_host_len((m * T::spec_width()) as nat, 32, 1) <= m * 32,
{
    lemma_bytes_chunks_count(uints_bytes(values));
    lemma_uints_bytes_len::<T>(values);
    if values.len() < m {
        vstd::arithmetic::mul::lemma_mul_inequality(
            values.len() as int,
            m as int,
            T::spec_width() as int,
        );
    }
    let vb = values.len() * T::spec_width();
    let mb = m * T::spec_width();
    vstd::arithmetic::mul::lemma_mul_basics(vb as int);
    vstd::arithmetic::mul::lemma_mul_basics(mb as int);
    crate::packed::lemma_host_len_mono(vb, mb, 32, 1);
    if values.len() == 0 {
        vstd::arithmetic::mul::lemma_mul_basics(T::spec_width() as int);
    }
    T::width_bounds();
    vstd::arithmetic::mul::lemma_mul_inequality(T::spec_width() as int, 32, m as int);
    vstd::arithmetic::mul::lemma_mul_is_commutative(T::spec_width() as int, m as int);
    vstd::arithmetic::div_mod::lemma_div_is_ordered_by_denominator(mb as int, 1, 32);
    vstd::arithmetic::div_mod::lemma_div_basics(mb as int);
}

/// The byte count of a packed vector.
pub proof fn lemma_uints_bytes_len<T: LittleEndian>(values: Seq<T>)
    ensures
        uints_bytes(values).len() == values.len() * T::spec_width(),
    decreases values.len(),
{
    if values.len() > 0 {
        lemma_uints_bytes_len::<T>(values.drop_first());
        lemma_le_bytes_len(values[0].spec_nat(), T::spec_width());
        vstd::arithmetic::mul::lemma_mul_is_distributive_add_other_way(
            T::spec_width() as int,
            values.len() as int - 1,
            1,
        );
    } else {
        vstd::arithmetic::mul::lemma_mul_basics(T::spec_width() as int);
    }
}


/// The host vector a packed tree of primitives stands on.
pub open spec fn packed_tuple_rep<T: LittleEndian>(
    root: ValueRep,
    len: nat,
    max_len: Option<nat>,
) -> crate::vector::VectorRep {
    crate::vector::VectorRep {
        root,
        len: spec_host_len((len * T::spec_width()) as nat, 32, 1),
        max_len: match max_len {
            Some(m) => Some(spec_host_len((m * T::spec_width()) as nat, 32, 1)),
            None => None,
        },
    }
}

/// Whether a value is what the packed leaves at a position decode to.
pub open spec fn reads_back<T: LittleEndian>(
    s: StoreRep,
    t: crate::vector::VectorRep,
    i: nat,
    x: T,
) -> bool {
    match packed_read_at::<T>(s, t, i) {
        Some(bytes) => x.spec_nat() == le_value(bytes),
        None => false,
    }
}

/// The bytes the value at a position covers, read out of packed leaves.
pub open spec fn packed_read_at<T: LittleEndian>(
    s: StoreRep,
    t: crate::vector::VectorRep,
    i: nat,
) -> Option<Seq<u8>> {
    crate::packed::spec_packed_read(
        s,
        t,
        crate::packed::spec_coverings(i, 32, T::spec_width()).0,
        crate::packed::spec_coverings(i, 32, T::spec_width()).1,
    )
}

/// Whether every value position up to `count` reads back out of the
/// packed leaves.
pub open spec fn packed_reads_ok<T: LittleEndian>(
    s: StoreRep,
    t: crate::vector::VectorRep,
    count: nat,
) -> bool {
    forall|i: int| 0 <= i < count ==> (#[trigger] packed_read_at::<T>(s, t, i as nat)) is Some
}

/// The byte each host position of a packed byte vector reads back to,
/// zero where the read fails.
pub open spec fn spec_read_bytes(
    s: StoreRep,
    t: crate::vector::VectorRep,
    count: nat,
) -> Seq<u8> {
    Seq::new(
        count,
        |i: int|
            match packed_read_at::<u8>(s, t, i as nat) {
                Some(bs) => (le_value(bs) % 256) as u8,
                None => 0u8,
            },
    )
}

/// Rebuild a vector of primitives from packed leaves.
#[verifier::rlimit(50)]
#[verifier::loop_isolation(false)]
pub fn from_compact_vector_tree<T: LittleEndian, DB: WriteBackend>(
    root: &Value,
    db: &mut DB,
    len: usize,
    max_len: Option<usize>,
) -> (r: Result<Vec<T>, Error<DB::Error>>)
    requires
        old(db).wf(),
        len <= usize::MAX / 1024,
        match max_len {
            Some(m) => len <= m && m <= usize::MAX / 1024,
            None => true,
        },
    ensures
        final(db).wf(),
        same_config(final(db), old(db)),
        final(db).store() == old(db).store(),
        packed_reads_ok::<T>(
            old(db).store(),
            packed_tuple_rep::<T>(
                root@,
                len as nat,
                match max_len {
                    Some(m) => Some(m as nat),
                    None => None,
                },
            ),
            len as nat,
        ) ==> r is Ok,
        r is Ok ==> packed_reads_ok::<T>(
            old(db).store(),
            packed_tuple_rep::<T>(
                root@,
                len as nat,
                match max_len {
                    Some(m) => Some(m as nat),
                    None => None,
                },
            ),
            len as nat,
        ),
        match r {
            Ok(v) => v@.len() == len && forall|i: int| 0 <= i < len ==> reads_back::<T>(
                old(db).store(),
                packed_tuple_rep::<T>(
                    root@,
                    len as nat,
                    match max_len {
                        Some(m) => Some(m as nat),
                        None => None,
                    },
                ),
                i as nat,
                #[trigger] v@[i],
            ),
            Err(_) => true,
        },
{
    proof {
        T::width_bounds();
        vstd::arithmetic::div_mod::lemma_fundamental_div_mod(usize::MAX as int, 1024);
        vstd::arithmetic::div_mod::lemma_fundamental_div_mod(usize::MAX as int, 8);
        vstd::arithmetic::div_mod::lemma_mod_bound(usize::MAX as int, 1024);
        vstd::arithmetic::div_mod::lemma_mod_bound(usize::MAX as int, 8);
        let q = (usize::MAX / 1024) as int;
        assert(q >= 1);
        vstd::arithmetic::mul::lemma_mul_inequality(T::spec_width() as int, 32, len as int + 1);
        vstd::arithmetic::mul::lemma_mul_is_commutative(T::spec_width() as int, len as int + 1);
        vstd::arithmetic::mul::lemma_mul_inequality(len as int + 1, q + 1, 32);
        vstd::arithmetic::mul::lemma_mul_is_commutative(len as int + 1, 32);
        vstd::arithmetic::mul::lemma_mul_is_commutative(q + 1, 32);
        match max_len {
            Some(m) => {
                vstd::arithmetic::mul::lemma_mul_inequality(
                    T::spec_width() as int,
                    32,
                    m as int + 1,
                );
                vstd::arithmetic::mul::lemma_mul_is_commutative(
                    T::spec_width() as int,
                    m as int + 1,
                );
                vstd::arithmetic::mul::lemma_mul_inequality(m as int + 1, q + 1, 32);
                vstd::arithmetic::mul::lemma_mul_is_commutative(m as int + 1, 32);
            },
            None => {},
        }
    }
    if len == 0 {
        let empty_out: Vec<T> = Vec::new();
        return Ok(empty_out);
    }
    let w = T::width();
    let packed = crate::packed::PackedVector::<Dangling>::from_raw(
        Raw::<Dangling>::from_leaked(root.clone()),
        len,
        max_len,
        32,
        w,
    );
    let ghost trep = packed_tuple_rep::<T>(
        root@,
        len as nat,
        match max_len {
            Some(m) => Some(m as nat),
            None => None,
        },
    );
    proof {
        assert(packed@.tuple == trep);
    }
    let mut out: Vec<T> = Vec::new();
    let mut i: usize = 0;
    while i < len
        invariant
            i <= len,
            db.wf(),
            same_config(db, old(db)),
            db.store() == old(db).store(),
            crate::packed::packed_wf(packed@),
            packed@.tuple == trep,
            packed@.hw == 32,
            packed@.vw == T::spec_width(),
            packed@.len == len,
            out@.len() == i,
            forall|q2: int| 0 <= q2 < i ==> reads_back::<T>(
                old(db).store(),
                trep,
                q2 as nat,
                #[trigger] out@[q2],
            ),
        decreases len - i,
    {
        proof {
            vstd::arithmetic::mul::lemma_mul_inequality(
                i as int + 1,
                len as int + 1,
                T::spec_width() as int,
            );
        }
        let bytes = match packed.get(db, i) {
            Ok(bytes) => bytes,
            Err(e) => {
                proof {
                    let w: int = i as int;
                    assert((packed_read_at::<T>(old(db).store(), trep, w as nat)) is None);
                    assert(!packed_reads_ok::<T>(old(db).store(), trep, len as nat));
                }
                return Err(e);
            },
        };
        proof {
            crate::packed::lemma_coverings(i as nat, 32, T::spec_width());
            crate::packed::lemma_packed_read_len(
                db.store(),
                trep,
                crate::packed::spec_coverings(i as nat, 32, T::spec_width()).0,
                crate::packed::spec_coverings(i as nat, 32, T::spec_width()).1,
            );
            assert(bytes@.len() == T::spec_width());
            assert(bytes@.subrange(0, T::spec_width() as int) =~= bytes@);
        }
        let value = T::from_le(&bytes, 0);
        let ghost oldout = out@;
        out.push(value);
        proof {
            assert(packed_read_at::<T>(old(db).store(), trep, i as nat) == Some(bytes@));
            assert(out@[i as int].spec_nat() == le_value(bytes@));
            assert forall|q2: int| 0 <= q2 < i + 1 implies reads_back::<T>(
                old(db).store(),
                trep,
                q2 as nat,
                #[trigger] out@[q2],
            ) by {
                if q2 < i {
                    assert(out@[q2] == oldout[q2]);
                    assert(reads_back::<T>(old(db).store(), trep, q2 as nat, oldout[q2]));
                } else {
                    assert(out@[q2].spec_nat() == le_value(bytes@));
                }
            }
        }
        i = i + 1;
    }
    proof {
        assert forall|q2: int| 0 <= q2 < len implies (#[trigger] packed_read_at::<T>(
            old(db).store(),
            trep,
            q2 as nat,
        )) is Some by {
            assert(reads_back::<T>(old(db).store(), trep, q2 as nat, out@[q2]));
        }
    }
    Ok(out)
}

/// Mix a length into a root: hash the value's root with the length
/// chunk, inserting the pair.
pub fn mix_in_length<DB: WriteBackend>(root: Value, db: &mut DB, len: usize) -> (r: Result<
    Value,
    Error<DB::Error>,
>)
    requires
        old(db).wf(),
    ensures
        final(db).wf(),
        same_config(final(db), old(db)),
        ({
            let key = crate::traits::hash_of_pair(
                root@,
                ValueRep::End(le_bytes_of(len as nat, 32)),
            );
            let ins = crate::store::store_insert_res(
                old(db).store(),
                key,
                (root@, ValueRep::End(le_bytes_of(len as nat, 32))),
            );
            final(db).store() == (if old(db).is_noop() {
                old(db).store()
            } else {
                ins.0
            }) && match r {
                Ok(v) => v@ == ValueRep::Intermediate(key) && (old(db).is_noop() || ins.1),
                Err(_) => !old(db).is_noop() && !ins.1,
            }
        }),
{
    let len_chunk = Value::End(encode_length(len));
    let key = intermediate_of(&root, &len_chunk);
    let key2 = key.clone();
    match db.insert(key2, (root, len_chunk)) {
        Ok(_) => Ok(Value::Intermediate(key)),
        Err(e) => Err(Error::Backend(e)),
    }
}

/// Mixing a length then decoding the mixed root reads the pair back:
/// where the inserted entry landed (a fresh key, or one already holding
/// the same pair), the children read cleanly, the left child is the mixed
/// value, and the length is the one mixed in.
pub proof fn lemma_mix_then_decode(s: StoreRep, left: ValueRep, len: nat)
    requires
        len <= usize::MAX,
        ({
            let len_leaf = ValueRep::End(le_bytes_of(len, 32));
            let key = crate::traits::hash_of_pair(left, len_leaf);
            &&& (!s.contains_key(key) || s[key].0 == (left, len_leaf))
            &&& crate::store::store_insert_res(s, key, (left, len_leaf)).1
        }),
    ensures
        ({
            let len_leaf = ValueRep::End(le_bytes_of(len, 32));
            let key = crate::traits::hash_of_pair(left, len_leaf);
            let s2 = crate::store::store_insert_res(s, key, (left, len_leaf)).0;
            let root = ValueRep::Intermediate(key);
            &&& mixed_pair_ok(s2, root)
            &&& mixed_left(s2, root) == left
            &&& mixed_len(s2, root) == len
        }),
{
    let len_leaf = ValueRep::End(le_bytes_of(len, 32));
    let key = crate::traits::hash_of_pair(left, len_leaf);
    let s2 = crate::store::store_insert_res(s, key, (left, len_leaf)).0;
    let root = ValueRep::Intermediate(key);
    crate::store::lemma_insert_contains(s, key, (left, len_leaf));
    assert(s2.contains_key(key) && s2[key].0 == (left, len_leaf));
    assert(crate::index::route_of(1) =~= Seq::<crate::index::MerkleSelection>::empty());
    assert(crate::index::route_of(2) =~= crate::index::route_of(1).push(
        crate::index::MerkleSelection::Left,
    ));
    assert(crate::index::route_of(3) =~= crate::index::route_of(1).push(
        crate::index::MerkleSelection::Right,
    ));
    assert(crate::index::route_of(2) =~= seq![crate::index::MerkleSelection::Left]);
    assert(crate::index::route_of(3) =~= seq![crate::index::MerkleSelection::Right]);
    assert(crate::index::route_of(2).drop_first() =~= Seq::<
        crate::index::MerkleSelection,
    >::empty());
    assert(crate::index::route_of(3).drop_first() =~= Seq::<
        crate::index::MerkleSelection,
    >::empty());
    let lroute = seq![crate::index::MerkleSelection::Left];
    let rroute = seq![crate::index::MerkleSelection::Right];
    assert(spec_get(s2, left, lroute.drop_first()) == Some(Some(left)));
    assert(spec_get(s2, len_leaf, rroute.drop_first()) == Some(Some(len_leaf)));
    assert(crate::raw::sel_value(s2[key].0, lroute[0]) == left);
    assert(crate::raw::sel_value(s2[key].0, rroute[0]) == len_leaf);
    assert(spec_get(s2, root, lroute) == Some(Some(left)));
    assert(spec_get(s2, root, rroute) == Some(Some(len_leaf)));
    assert(spec_get(s2, root, crate::index::route_of(2)) == Some(Some(left)));
    assert(spec_get(s2, root, crate::index::route_of(3)) == Some(Some(len_leaf)));
    lemma_le_bytes_len(len, 32);
    lemma_pow256_values();
    lemma_pow256_mono(8, 32);
    crate::utils::lemma_le_round_trip(len, 32);
}

/// Read a mixed-in length and the value root back from a list root.
pub fn decode_with_length<DB: WriteBackend>(root: &Value, db: &mut DB) -> (r: Result<
    (Value, usize),
    Error<DB::Error>,
>)
    requires
        old(db).wf(),
    ensures
        final(db).wf(),
        same_config(final(db), old(db)),
        final(db).store() == old(db).store(),
        (r is Ok) == mixed_pair_ok(old(db).store(), root@),
        r matches Ok(pair) ==> pair.0@ == mixed_left(old(db).store(), root@) && pair.1
            == mixed_len(old(db).store(), root@),
        r matches Err(e) ==> (e is Backend || e is CorruptedDatabase),
        r matches Err(e) && e is Backend ==> spec_get(
            old(db).store(),
            root@,
            crate::index::route_of(2),
        ) is None || spec_get(old(db).store(), root@, crate::index::route_of(3)) is None,
{
    let raw = Raw::<Dangling>::from_leaked(root.clone());
    let left = match raw.get(db, crate::index::MerkleIndex::root().left()) {
        Ok(Some(v)) => v,
        Ok(None) => {
            return Err(Error::CorruptedDatabase);
        },
        Err(e) => {
            return Err(e);
        },
    };
    let right = match raw.get(db, crate::index::MerkleIndex::root().right()) {
        Ok(Some(v)) => v,
        Ok(None) => {
            return Err(Error::CorruptedDatabase);
        },
        Err(e) => {
            return Err(e);
        },
    };
    let chunk = match right {
        Value::End(bytes) => bytes,
        Value::Intermediate(_) => {
            return Err(Error::CorruptedDatabase);
        },
    };
    let len = match decode_length(&chunk) {
        Some(n) => n,
        None => {
            return Err(Error::CorruptedDatabase);
        },
    };
    Ok((left, len))
}

/// Serialize a list of primitives: the packed vector at the bound's
/// capacity with the length mixed in.
pub fn into_compact_list_tree<T: LittleEndian, DB: WriteBackend>(
    values: &Vec<T>,
    db: &mut DB,
    max_len: Option<usize>,
) -> (r: Result<Value, Error<DB::Error>>)
    requires
        old(db).wf(),
        values@.len() <= usize::MAX / 32,
        match max_len {
            Some(m) => values@.len() <= m && m <= usize::MAX / 32,
            None => true,
        },
    ensures
        final(db).wf(),
        same_config(final(db), old(db)),
        old(db).is_noop() ==> r is Ok,
        ({
            let cfg = db_config(old(db));
            let target: nat = match max_len {
                Some(m) => spec_host_len((m * T::spec_width()) as nat, 32, 1),
                None => packed_chunks(values@).len(),
            };
            let o = spec_vector_tree(
                old(db).store(),
                packed_chunks(values@),
                depth_for(target),
                cfg,
            );
            if !o.2 {
                final(db).store() == o.0 && r is Err
            } else {
                let left = packed_vector_root(
                    values@,
                    match max_len {
                        Some(m) => Some(m as nat),
                        None => None,
                    },
                    cfg.unit,
                    cfg.end,
                );
                let len_leaf = ValueRep::End(le_bytes_of(values@.len(), 32));
                let key = crate::traits::hash_of_pair(left, len_leaf);
                let ins = crate::store::store_insert_res(o.0, key, (left, len_leaf));
                final(db).store() == (if cfg.noop {
                    o.0
                } else {
                    ins.0
                }) && match r {
                    Ok(v) => (cfg.noop || ins.1) && v@ == ValueRep::Intermediate(key),
                    Err(_) => !cfg.noop && !ins.1,
                }
            }
        }),
{
    proof {
        if old(db).is_noop() {
            lemma_vector_tree_noop(
                old(db).store(),
                packed_chunks(values@),
                depth_for(
                    match max_len {
                        Some(m) => spec_host_len((m * T::spec_width()) as nat, 32, 1),
                        None => packed_chunks(values@).len(),
                    },
                ),
                db_config(old(db)),
            );
        }
    }
    let left = match into_compact_vector_tree(values, db, max_len) {
        Ok(v) => v,
        Err(e) => {
            return Err(e);
        },
    };
    mix_in_length(left, db, values.len())
}

/// Rebuild a list of primitives: read the mixed-in length, then the
/// packed vector under the bound's capacity.
pub fn from_compact_list_tree<T: LittleEndian, DB: WriteBackend>(
    root: &Value,
    db: &mut DB,
    max_len: Option<usize>,
) -> (r: Result<Vec<T>, Error<DB::Error>>)
    requires
        old(db).wf(),
        match max_len {
            Some(m) => m <= usize::MAX / 1024,
            None => true,
        },
    ensures
        final(db).wf(),
        same_config(final(db), old(db)),
        final(db).store() == old(db).store(),
        ({
            let s = old(db).store();
            let cond = mixed_pair_ok(s, root@) && mixed_len(s, root@) <= usize::MAX / 1024
                && (match max_len {
                    Some(m) => mixed_len(s, root@) <= m,
                    None => true,
                }) && packed_reads_ok::<T>(
                s,
                packed_tuple_rep::<T>(mixed_left(s, root@), mixed_len(s, root@), (match max_len {
                    Some(m) => Some(m as nat),
                    None => None,
                })),
                mixed_len(s, root@),
            );
            &&& cond ==> r is Ok
            &&& r is Ok ==> cond
        }),
        match r {
            Ok(v) => {
                &&& v@.len() == mixed_len(old(db).store(), root@)
                &&& spec_get(old(db).store(), root@, crate::index::route_of(3)) matches Some(
                    Some(ValueRep::End(chunk)),
                ) && chunk.len() == 32 && le_value(chunk) == v@.len()
                &&& spec_get(old(db).store(), root@, crate::index::route_of(2)) matches Some(
                    Some(vroot),
                ) && (forall|i: int| 0 <= i < v@.len() ==> reads_back::<T>(
                    old(db).store(),
                    packed_tuple_rep::<T>(
                        vroot,
                        v@.len(),
                        match max_len {
                            Some(m) => Some(m as nat),
                            None => None,
                        },
                    ),
                    i as nat,
                    #[trigger] v@[i],
                ))
                &&& match max_len {
                    Some(m) => v@.len() <= m,
                    None => v@.len() <= usize::MAX / 1024,
                }
            },
            Err(_) => true,
        },
{
    let decoded = match decode_with_length(root, db) {
        Ok(pair) => pair,
        Err(e) => {
            return Err(e);
        },
    };
    let (vector_root, len) = decoded;
    if len > usize::MAX / 1024 {
        return Err(Error::CorruptedDatabase);
    }
    match max_len {
        Some(m) => {
            if len > m {
                return Err(Error::CorruptedDatabase);
            }
        },
        None => {},
    }
    from_compact_vector_tree::<T, DB>(&vector_root, db, len, max_len)
}


impl<'a, T: LittleEndian> ElementalFixedVecRef<'a, T> {
    /// Serialize this fixed vector into packed leaves.
    pub fn into_compact_vector_tree<DB: WriteBackend>(
        &self,
        db: &mut DB,
        max_len: Option<usize>,
    ) -> (r: Result<Value, Error<DB::Error>>)
        requires
            old(db).wf(),
            self.0@.len() <= usize::MAX / 32,
            match max_len {
                Some(m) => self.0@.len() <= m && m <= usize::MAX / 32,
                None => true,
            },
        ensures
            final(db).wf(),
            same_config(final(db), old(db)),
            old(db).is_noop() ==> r is Ok,
            ({
                let o = spec_packed_vector_tree::<T>(
                    old(db).store(),
                    self.0@,
                    (match max_len {
                        Some(m) => Some(m as nat),
                        None => None,
                    }),
                    db_config(old(db)),
                );
                final(db).store() == o.0 && (r is Ok) == o.2 && (r matches Ok(v) ==> v@
                    == packed_vector_root(
                    self.0@,
                    (match max_len {
                        Some(m) => Some(m as nat),
                        None => None,
                    }),
                    old(db).unit_policy(),
                    old(db).empty_end(),
                ))
            }),
    {
        proof {
            if old(db).is_noop() {
                lemma_vector_tree_noop(
                    old(db).store(),
                    packed_chunks(self.0@),
                    depth_for(
                        match max_len {
                            Some(m) => spec_host_len((m * T::spec_width()) as nat, 32, 1),
                            None => packed_chunks(self.0@).len(),
                        },
                    ),
                    db_config(old(db)),
                );
            }
        }
        into_compact_vector_tree(self.0, db, max_len)
    }
}

impl<T: LittleEndian> ElementalFixedVec<T> {
    /// Rebuild a fixed vector of the given length from packed leaves.
    pub fn from_compact_vector_tree<DB: WriteBackend>(
        root: &Value,
        db: &mut DB,
        len: usize,
        max_len: Option<usize>,
    ) -> (r: Result<Self, Error<DB::Error>>)
        requires
            old(db).wf(),
            len <= usize::MAX / 1024,
            match max_len {
                Some(m) => len <= m && m <= usize::MAX / 1024,
                None => true,
            },
        ensures
            final(db).wf(),
            same_config(final(db), old(db)),
            final(db).store() == old(db).store(),
            packed_reads_ok::<T>(
                old(db).store(),
                packed_tuple_rep::<T>(root@, len as nat, (match max_len {
                    Some(m) => Some(m as nat),
                    None => None,
                })),
                len as nat,
            ) ==> r is Ok,
            r is Ok ==> packed_reads_ok::<T>(
                old(db).store(),
                packed_tuple_rep::<T>(root@, len as nat, (match max_len {
                    Some(m) => Some(m as nat),
                    None => None,
                })),
                len as nat,
            ),
            match r {
                Ok(v) => v.0@.len() == len && forall|i: int| 0 <= i < len ==> reads_back::<T>(
                    old(db).store(),
                    packed_tuple_rep::<T>(
                        root@,
                        len as nat,
                        match max_len {
                            Some(m) => Some(m as nat),
                            None => None,
                        },
                    ),
                    i as nat,
                    #[trigger] v.0@[i],
                ),
                Err(_) => true,
            },
    {
        match from_compact_vector_tree::<T, DB>(root, db, len, max_len) {
            Ok(values) => Ok(ElementalFixedVec(values)),
            Err(e) => Err(e),
        }
    }
}

impl<'a, T: LittleEndian> ElementalVariableVecRef<'a, T> {
    /// Serialize this list into packed leaves with its length mixed in.
    pub fn into_compact_list_tree<DB: WriteBackend>(
        &self,
        db: &mut DB,
        max_len: Option<usize>,
    ) -> (r: Result<Value, Error<DB::Error>>)
        requires
            old(db).wf(),
            self.0@.len() <= usize::MAX / 32,
            match max_len {
                Some(m) => self.0@.len() <= m && m <= usize::MAX / 32,
                None => true,
            },
        ensures
            final(db).wf(),
            same_config(final(db), old(db)),
            old(db).is_noop() ==> r is Ok,
            ({
                let o = spec_packed_list_tree::<T>(
                    old(db).store(),
                    self.0@,
                    (match max_len {
                        Some(m) => Some(m as nat),
                        None => None,
                    }),
                    db_config(old(db)),
                );
                final(db).store() == o.0 && (r is Ok) == o.2 && (r matches Ok(v) ==> v@
                    == o.1)
            }),
    {
        into_compact_list_tree(self.0, db, max_len)
    }
}

impl<T: LittleEndian> ElementalVariableVec<T> {
    /// Rebuild a list from packed leaves and its mixed-in length.
    pub fn from_compact_list_tree<DB: WriteBackend>(
        root: &Value,
        db: &mut DB,
        max_len: Option<usize>,
    ) -> (r: Result<Self, Error<DB::Error>>)
        requires
            old(db).wf(),
            match max_len {
                Some(m) => m <= usize::MAX / 1024,
                None => true,
            },
        ensures
            final(db).wf(),
            same_config(final(db), old(db)),
            final(db).store() == old(db).store(),
            ({
                let s = old(db).store();
                let cond = mixed_pair_ok(s, root@) && mixed_len(s, root@) <= usize::MAX / 1024
                    && (match max_len {
                        Some(m) => mixed_len(s, root@) <= m,
                        None => true,
                    }) && packed_reads_ok::<T>(
                    s,
                    packed_tuple_rep::<T>(mixed_left(s, root@), mixed_len(s, root@), (match max_len {
                        Some(m) => Some(m as nat),
                        None => None,
                    })),
                    mixed_len(s, root@),
                );
                &&& cond ==> r is Ok
                &&& r is Ok ==> cond
            }),
            match r {
                Ok(v) => {
                    &&& v.0@.len() == mixed_len(old(db).store(), root@)
                    &&& spec_get(old(db).store(), root@, crate::index::route_of(3)) matches Some(
                        Some(ValueRep::End(chunk)),
                    ) && chunk.len() == 32 && le_value(chunk) == v.0@.len()
                    &&& spec_get(old(db).store(), root@, crate::index::route_of(2)) matches Some(
                        Some(vroot),
                    ) && (forall|i: int| 0 <= i < v.0@.len() ==> reads_back::<T>(
                        old(db).store(),
                        packed_tuple_rep::<T>(vroot, v.0@.len(), (match max_len {
                            Some(m) => Some(m as nat),
                            None => None,
                        })),
                        i as nat,
                        #[trigger] v.0@[i],
                    ))
                    &&& match max_len {
                        Some(m) => v.0@.len() <= m,
                        None => v.0@.len() <= usize::MAX / 1024,
                    }
                },
                Err(_) => true,
            },
    {
        match from_compact_list_tree::<T, DB>(root, db, max_len) {
            Ok(values) => Ok(ElementalVariableVec(values)),
            Err(e) => Err(e),
        }
    }
}

/// Fixed `Vec` of primitives: an SSZ vector, packed.
pub struct FixedVec<T>(pub Vec<T>);

/// Fixed `Vec` reference: an SSZ vector, packed.
pub struct FixedVecRef<'a, T>(pub &'a Vec<T>);

/// Variable `Vec` of primitives with a fixed bound: an SSZ list, packed,
/// with its length mixed into the root.
pub struct VariableVec<T>(pub Vec<T>, pub Option<usize>);

/// Variable `Vec` reference with a fixed bound.
pub struct VariableVecRef<'a, T>(pub &'a Vec<T>, pub Option<usize>);

/// Vec value with maximum length.
pub struct MaxVec<T>(pub Vec<T>, pub usize);

/// Indicate that the current value should be serialized and deserialized
/// in the packed form. Value form.
pub struct Compact<T>(pub T);

/// Indicate that the current value should be serialized and deserialized
/// in the packed form. Reference form.
pub struct CompactRef<'a, T>(pub &'a T);

impl<'a, T: LittleEndian> FixedVecRef<'a, T> {
    /// Serialize the referenced vector into packed leaves.
    pub fn into_tree<DB: WriteBackend>(&self, db: &mut DB) -> (r: Result<
        Value,
        Error<DB::Error>,
    >)
        requires
            old(db).wf(),
            self.0@.len() <= usize::MAX / 32,
        ensures
            final(db).wf(),
            same_config(final(db), old(db)),
            old(db).is_noop() ==> r is Ok,
            ({
                let o = spec_packed_vector_tree::<T>(
                    old(db).store(),
                    self.0@,
                    None,
                    db_config(old(db)),
                );
                final(db).store() == o.0 && (r is Ok) == o.2 && (r matches Ok(v) ==> v@
                    == packed_vector_root(
                    self.0@,
                    None,
                    old(db).unit_policy(),
                    old(db).empty_end(),
                ))
            }),
    {
        ElementalFixedVecRef(self.0).into_compact_vector_tree(db, None)
    }
}

impl<'a, T: LittleEndian> VariableVecRef<'a, T> {
    /// Serialize the referenced list with its length mixed in.
    pub fn into_tree<DB: WriteBackend>(&self, db: &mut DB) -> (r: Result<
        Value,
        Error<DB::Error>,
    >)
        requires
            old(db).wf(),
            self.0@.len() <= usize::MAX / 32,
            match self.1 {
                Some(m) => self.0@.len() <= m && m <= usize::MAX / 32,
                None => true,
            },
        ensures
            final(db).wf(),
            same_config(final(db), old(db)),
            old(db).is_noop() ==> r is Ok,
            ({
                let o = spec_packed_list_tree::<T>(
                    old(db).store(),
                    self.0@,
                    (match self.1 {
                        Some(m) => Some(m as nat),
                        None => None,
                    }),
                    db_config(old(db)),
                );
                final(db).store() == o.0 && (r is Ok) == o.2 && (r matches Ok(v) ==> v@
                    == o.1)
            }),
    {
        ElementalVariableVecRef(self.0).into_compact_list_tree(db, self.1)
    }
}

impl<T: LittleEndian> Compact<Vec<T>> {
    /// Serialize the wrapped values into packed leaves.
    pub fn into_tree<DB: WriteBackend>(&self, db: &mut DB) -> (r: Result<
        Value,
        Error<DB::Error>,
    >)
        requires
            old(db).wf(),
            self.0@.len() <= usize::MAX / 32,
        ensures
            final(db).wf(),
            same_config(final(db), old(db)),
            old(db).is_noop() ==> r is Ok,
            ({
                let o = spec_packed_vector_tree::<T>(
                    old(db).store(),
                    self.0@,
                    None,
                    db_config(old(db)),
                );
                final(db).store() == o.0 && (r is Ok) == o.2 && (r matches Ok(v) ==> v@
                    == packed_vector_root(
                    self.0@,
                    None,
                    old(db).unit_policy(),
                    old(db).empty_end(),
                ))
            }),
    {
        ElementalFixedVecRef(&self.0).into_compact_vector_tree(db, None)
    }
}

impl<'a, T: LittleEndian> CompactRef<'a, Vec<T>> {
    /// Serialize the referenced values into packed leaves.
    pub fn into_tree<DB: WriteBackend>(&self, db: &mut DB) -> (r: Result<
        Value,
        Error<DB::Error>,
    >)
        requires
            old(db).wf(),
            self.0@.len() <= usize::MAX / 32,
        ensures
            final(db).wf(),
            same_config(final(db), old(db)),
            old(db).is_noop() ==> r is Ok,
            ({
                let o = spec_packed_vector_tree::<T>(
                    old(db).store(),
                    self.0@,
                    None,
                    db_config(old(db)),
                );
                final(db).store() == o.0 && (r is Ok) == o.2 && (r matches Ok(v) ==> v@
                    == packed_vector_root(
                    self.0@,
                    None,
                    old(db).unit_policy(),
                    old(db).empty_end(),
                ))
            }),
    {
        ElementalFixedVecRef(self.0).into_compact_vector_tree(db, None)
    }
}

impl<T: LittleEndian> FixedVec<T> {
    /// Serialize this vector into packed leaves.
    pub fn into_tree<DB: WriteBackend>(&self, db: &mut DB) -> (r: Result<
        Value,
        Error<DB::Error>,
    >)
        requires
            old(db).wf(),
            self.0@.len() <= usize::MAX / 32,
        ensures
            final(db).wf(),
            same_config(final(db), old(db)),
            old(db).is_noop() ==> r is Ok,
            ({
                let o = spec_packed_vector_tree::<T>(
                    old(db).store(),
                    self.0@,
                    None,
                    db_config(old(db)),
                );
                final(db).store() == o.0 && (r is Ok) == o.2 && (r matches Ok(v) ==> v@
                    == packed_vector_root(
                    self.0@,
                    None,
                    old(db).unit_policy(),
                    old(db).empty_end(),
                ))
            }),
    {
        ElementalFixedVecRef(&self.0).into_compact_vector_tree(db, None)
    }

    /// Rebuild a vector of the given length from packed leaves.
    pub fn from_tree<DB: WriteBackend>(root: &Value, db: &mut DB, len: usize) -> (r: Result<
        Self,
        Error<DB::Error>,
    >)
        requires
            old(db).wf(),
            len <= usize::MAX / 1024,
        ensures
            final(db).wf(),
            same_config(final(db), old(db)),
            final(db).store() == old(db).store(),
            packed_reads_ok::<T>(
                old(db).store(),
                packed_tuple_rep::<T>(root@, len as nat, None),
                len as nat,
            ) ==> r is Ok,
            r is Ok ==> packed_reads_ok::<T>(
                old(db).store(),
                packed_tuple_rep::<T>(root@, len as nat, None),
                len as nat,
            ),
            match r {
                Ok(v) => v.0@.len() == len && forall|i: int| 0 <= i < len ==> reads_back::<T>(
                    old(db).store(),
                    packed_tuple_rep::<T>(root@, len as nat, None),
                    i as nat,
                    #[trigger] v.0@[i],
                ),
                Err(_) => true,
            },
    {
        match ElementalFixedVec::<T>::from_compact_vector_tree(root, db, len, None) {
            Ok(v) => Ok(FixedVec(v.0)),
            Err(e) => Err(e),
        }
    }
}

impl<T: LittleEndian> VariableVec<T> {
    /// Serialize this list: the packed vector at the bound's capacity
    /// with the length mixed in.
    pub fn into_tree<DB: WriteBackend>(&self, db: &mut DB) -> (r: Result<
        Value,
        Error<DB::Error>,
    >)
        requires
            old(db).wf(),
            self.0@.len() <= usize::MAX / 32,
            match self.1 {
                Some(m) => self.0@.len() <= m && m <= usize::MAX / 32,
                None => true,
            },
        ensures
            final(db).wf(),
            same_config(final(db), old(db)),
            old(db).is_noop() ==> r is Ok,
            ({
                let o = spec_packed_list_tree::<T>(
                    old(db).store(),
                    self.0@,
                    (match self.1 {
                        Some(m) => Some(m as nat),
                        None => None,
                    }),
                    db_config(old(db)),
                );
                final(db).store() == o.0 && (r is Ok) == o.2 && (r matches Ok(v) ==> v@
                    == o.1)
            }),
    {
        ElementalVariableVecRef(&self.0).into_compact_list_tree(db, self.1)
    }

    /// Rebuild a list under the given bound from its mixed root.
    pub fn from_tree<DB: WriteBackend>(root: &Value, db: &mut DB, max_len: Option<usize>) -> (r:
        Result<Self, Error<DB::Error>>)
        requires
            old(db).wf(),
            match max_len {
                Some(m) => m <= usize::MAX / 1024,
                None => true,
            },
        ensures
            final(db).wf(),
            same_config(final(db), old(db)),
            final(db).store() == old(db).store(),
            ({
                let s = old(db).store();
                let cond = mixed_pair_ok(s, root@) && mixed_len(s, root@) <= usize::MAX / 1024
                    && (match max_len {
                        Some(m) => mixed_len(s, root@) <= m,
                        None => true,
                    }) && packed_reads_ok::<T>(
                    s,
                    packed_tuple_rep::<T>(mixed_left(s, root@), mixed_len(s, root@), (match max_len {
                        Some(m) => Some(m as nat),
                        None => None,
                    })),
                    mixed_len(s, root@),
                );
                &&& cond ==> r is Ok
                &&& r is Ok ==> cond
            }),
            match r {
                Ok(v) => {
                    &&& v.0@.len() == mixed_len(old(db).store(), root@)
                    &&& spec_get(old(db).store(), root@, crate::index::route_of(3)) matches Some(
                        Some(ValueRep::End(chunk)),
                    ) && chunk.len() == 32 && le_value(chunk) == v.0@.len()
                    &&& spec_get(old(db).store(), root@, crate::index::route_of(2)) matches Some(
                        Some(vroot),
                    ) && (forall|i: int| 0 <= i < v.0@.len() ==> reads_back::<T>(
                        old(db).store(),
                        packed_tuple_rep::<T>(vroot, v.0@.len(), (match max_len {
                            Some(m) => Some(m as nat),
                            None => None,
                        })),
                        i as nat,
                        #[trigger] v.0@[i],
                    ))
                    &&& match max_len {
                        Some(m) => v.0@.len() <= m,
                        None => v.0@.len() <= usize::MAX / 1024,
                    }
                },
                Err(_) => true,
            },
    {
        match ElementalVariableVec::<T>::from_compact_list_tree(root, db, max_len) {
            Ok(v) => Ok(VariableVec(v.0, max_len)),
            Err(e) => Err(e),
        }
    }
}

impl<T: LittleEndian> MaxVec<T> {
    /// Serialize this bounded list: the packed vector at the bound's
    /// capacity with the length mixed in.
    pub fn into_tree<DB: WriteBackend>(&self, db: &mut DB) -> (r: Result<
        Value,
        Error<DB::Error>,
    >)
        requires
            old(db).wf(),
            self.0@.len() <= self.1,
            self.1 <= usize::MAX / 32,
        ensures
            final(db).wf(),
            same_config(final(db), old(db)),
            old(db).is_noop() ==> r is Ok,
            ({
                let o = spec_packed_list_tree::<T>(
                    old(db).store(),
                    self.0@,
                    Some(self.1 as nat),
                    db_config(old(db)),
                );
                final(db).store() == o.0 && (r is Ok) == o.2 && (r matches Ok(v) ==> v@
                    == o.1)
            }),
    {
        ElementalVariableVecRef(&self.0).into_compact_list_tree(db, Some(self.1))
    }

    /// Rebuild a bounded list from its mixed root.
    pub fn from_tree<DB: WriteBackend>(root: &Value, db: &mut DB, max_len: usize) -> (r: Result<
        Self,
        Error<DB::Error>,
    >)
        requires
            old(db).wf(),
            max_len <= usize::MAX / 1024,
        ensures
            final(db).wf(),
            same_config(final(db), old(db)),
            final(db).store() == old(db).store(),
            ({
                let s = old(db).store();
                let cond = mixed_pair_ok(s, root@) && mixed_len(s, root@) <= usize::MAX / 1024
                    && (mixed_len(s, root@) <= max_len) && packed_reads_ok::<T>(
                    s,
                    packed_tuple_rep::<T>(mixed_left(s, root@), mixed_len(s, root@), Some(max_len as nat)),
                    mixed_len(s, root@),
                );
                &&& cond ==> r is Ok
                &&& r is Ok ==> cond
            }),
            match r {
                Ok(v) => {
                    &&& v.0@.len() == mixed_len(old(db).store(), root@)
                    &&& spec_get(old(db).store(), root@, crate::index::route_of(3)) matches Some(
                        Some(ValueRep::End(chunk)),
                    ) && chunk.len() == 32 && le_value(chunk) == v.0@.len()
                    &&& spec_get(old(db).store(), root@, crate::index::route_of(2)) matches Some(
                        Some(vroot),
                    ) && (forall|i: int| 0 <= i < v.0@.len() ==> reads_back::<T>(
                        old(db).store(),
                        packed_tuple_rep::<T>(vroot, v.0@.len(), Some(max_len as nat)),
                        i as nat,
                        #[trigger] v.0@[i],
                    ))
                    &&& v.0@.len() <= max_len
                },
                Err(_) => true,
            },
    {
        match ElementalVariableVec::<T>::from_compact_list_tree(root, db, Some(max_len)) {
            Ok(v) => Ok(MaxVec(v.0, max_len)),
            Err(e) => Err(e),
        }
    }
}


/// Serialization is deterministic: the root a value hashes to is a
/// function of the value and the construct alone, so any two backends of
/// the same construct assign it the same root, and the throwaway backend
/// assigns it the root a real backend would.  The substance stands in the
/// `into_tree` contracts, whose roots all equal `tree_root_spec`.
pub proof fn lemma_root_deterministic<T: TreeSpec>(
    v: &T,
    unit: bool,
    end: Seq<u8>,
    r1: ValueRep,
    r2: ValueRep,
)
    requires
        r1 == v.tree_root_spec(unit, end),
        r2 == v.tree_root_spec(unit, end),
    ensures
        r1 == r2,
{
}


/// The typed round trip of a primitive leaf: a value decoded from the
/// first width bytes of the chunk another value of the same type encoded
/// is that value.
pub proof fn lemma_primitive_round_trip<T: LittleEndian>(x: T, y: T)
    requires
        y.spec_nat() == le_value(
            le_bytes_of(x.spec_nat(), 32).take(T::spec_width() as int),
        ),
    ensures
        y.spec_nat() == x.spec_nat(),
{
    T::width_bounds();
    x.nat_bounds();
    lemma_chunk_round_trip(x.spec_nat(), T::spec_width());
}


impl<T: TreeSpec> TreeSpec for Option<T> {
    open spec fn tree_root_spec(&self, unit: bool, end: Seq<u8>) -> ValueRep {
        match self {
            None => ValueRep::Intermediate(
                crate::traits::hash_of_pair(
                    ValueRep::End(Seq::<u8>::empty()),
                    ValueRep::End(le_bytes_of(0, 32)),
                ),
            ),
            Some(v) => ValueRep::Intermediate(
                crate::traits::hash_of_pair(
                    v.tree_root_spec(unit, end),
                    ValueRep::End(le_bytes_of(1, 32)),
                ),
            ),
        }
    }
}

impl<DB: WriteBackend, T: IntoTree<DB>> IntoTree<DB> for Option<T> {
    fn into_tree(&self, db: &mut DB) -> (r: Result<Value, Error<DB::Error>>) {
        let inner = match self {
            None => {
                let blank: Vec<u8> = Vec::new();
                proof {
                    assert(blank@ =~= Seq::<u8>::empty());
                }
                Value::End(blank)
            },
            Some(v) => match v.into_tree(db) {
                Ok(root) => root,
                Err(e) => {
                    return Err(e);
                },
            },
        };
        let tag: usize = match self {
            None => 0,
            Some(_) => 1,
        };
        mix_in_length(inner, db, tag)
    }
}

impl<DB: WriteBackend, T: FromTree<DB>> FromTree<DB> for Option<T> {
    fn from_tree(root: &Value, db: &mut DB) -> (r: Result<Self, Error<DB::Error>>)
        ensures
            ({
                let s = old(db).store();
                let readable = mixed_pair_ok(s, root@);
                let tag = mixed_len(s, root@);
                let child = mixed_left(s, root@);
                &&& !readable ==> r is Err
                &&& readable && tag == 0 ==> (if child == ValueRep::End(Seq::<u8>::empty()) {
                    r == Ok::<Option<T>, Error<DB::Error>>(None)
                } else {
                    r == Err::<Option<T>, Error<DB::Error>>(Error::CorruptedDatabase)
                })
                &&& readable && tag > 1 ==> r == Err::<Option<T>, Error<DB::Error>>(
                    Error::CorruptedDatabase,
                )
                &&& (r matches Ok(decoded) ==> readable && tag == (if decoded is Some {
                    1nat
                } else {
                    0nat
                }) && (decoded is None ==> child == ValueRep::End(Seq::<u8>::empty())))
            }),
    {
        let decoded = match decode_with_length(root, db) {
            Ok(pair) => pair,
            Err(e) => {
                return Err(e);
            },
        };
        let (inner, tag) = decoded;
        if tag == 0 {
            match <() as FromTree<DB>>::from_tree(&inner, db) {
                Ok(_) => Ok(None),
                Err(e) => Err(e),
            }
        } else if tag == 1 {
            match T::from_tree(&inner, db) {
                Ok(v) => Ok(Some(v)),
                Err(e) => Err(e),
            }
        } else {
            Err(Error::CorruptedDatabase)
        }
    }
}


/// A 256-bit hash value: one full 32-byte leaf.
pub struct H256 {
    bytes: Vec<u8>,
}

impl View for H256 {
    type V = Seq<u8>;

    closed spec fn view(&self) -> Seq<u8> {
        self.bytes@
    }
}

impl H256 {
    /// Whether the value holds exactly 32 bytes.
    pub closed spec fn wf(&self) -> bool {
        self.bytes@.len() == 32
    }

    /// Wrap 32 bytes as a hash value.
    pub fn from_bytes(bytes: Vec<u8>) -> (r: Result<Self, Error<()>>)
        ensures
            match r {
                Ok(h) => bytes@.len() == 32 && h@ == bytes@ && h.wf(),
                Err(_) => bytes@.len() != 32,
            },
    {
        if bytes.len() != 32 {
            return Err(Error::InvalidParameter);
        }
        Ok(H256 { bytes })
    }

    /// The 32 bytes of the value.
    pub fn as_bytes(&self) -> (r: &Vec<u8>)
        ensures
            r@ == self@,
    {
        &self.bytes
    }
}

impl TreeSpec for H256 {
    open spec fn tree_root_spec(&self, unit: bool, end: Seq<u8>) -> ValueRep {
        ValueRep::End(self@)
    }
}

impl<DB: WriteBackend> IntoTree<DB> for H256 {
    fn into_tree(&self, db: &mut DB) -> (r: Result<Value, Error<DB::Error>>)
        ensures
            final(db).store() == old(db).store(),
            r is Ok,
    {
        Ok(Value::End(self.bytes.clone()))
    }
}

impl<DB: WriteBackend> FromTree<DB> for H256 {
    fn from_tree(root: &Value, db: &mut DB) -> (r: Result<Self, Error<DB::Error>>)
        ensures
            match r {
                Ok(h) => root@ == ValueRep::End(h@) && h.wf(),
                Err(_) => root@ is Intermediate || root@.bytes().len() != 32,
            },
    {
        match root {
            Value::End(bytes) => {
                if bytes.len() != 32 {
                    return Err(Error::CorruptedDatabase);
                }
                Ok(H256 { bytes: bytes.clone() })
            },
            Value::Intermediate(_) => Err(Error::CorruptedDatabase),
        }
    }
}

/// A 256-bit unsigned integer held as its 32 little-endian bytes: one
/// full leaf, nothing unused to validate.
pub struct U256 {
    bytes: Vec<u8>,
}

impl View for U256 {
    type V = Seq<u8>;

    closed spec fn view(&self) -> Seq<u8> {
        self.bytes@
    }
}

impl U256 {
    /// Whether the value holds exactly 32 bytes.
    pub closed spec fn wf(&self) -> bool {
        self.bytes@.len() == 32
    }

    /// The number the little-endian bytes name.
    pub open spec fn spec_nat(&self) -> nat {
        le_value(self@)
    }

    /// Wrap 32 little-endian bytes as a 256-bit value.
    pub fn from_le_bytes(bytes: Vec<u8>) -> (r: Result<Self, Error<()>>)
        ensures
            match r {
                Ok(u) => bytes@.len() == 32 && u@ == bytes@ && u.wf(),
                Err(_) => bytes@.len() != 32,
            },
    {
        if bytes.len() != 32 {
            return Err(Error::InvalidParameter);
        }
        Ok(U256 { bytes })
    }

    /// A 256-bit value from a machine word.
    pub fn from_usize(value: usize) -> (r: Self)
        ensures
            r.wf(),
            r.spec_nat() == value,
            r@ == le_bytes_of(value as nat, 32),
    {
        proof {
            lemma_pow256_values();
            lemma_pow256_mono(8, 32);
            crate::utils::lemma_le_round_trip(value as nat, 32);
            lemma_le_bytes_len(value as nat, 32);
        }
        U256 { bytes: encode_length(value) }
    }

    /// The little-endian bytes of the value.
    pub fn as_le_bytes(&self) -> (r: &Vec<u8>)
        ensures
            r@ == self@,
    {
        &self.bytes
    }
}

impl TreeSpec for U256 {
    open spec fn tree_root_spec(&self, unit: bool, end: Seq<u8>) -> ValueRep {
        ValueRep::End(self@)
    }
}

impl<DB: WriteBackend> IntoTree<DB> for U256 {
    fn into_tree(&self, db: &mut DB) -> (r: Result<Value, Error<DB::Error>>)
        ensures
            final(db).store() == old(db).store(),
            r is Ok,
    {
        Ok(Value::End(self.bytes.clone()))
    }
}

impl<DB: WriteBackend> FromTree<DB> for U256 {
    fn from_tree(root: &Value, db: &mut DB) -> (r: Result<Self, Error<DB::Error>>)
        ensures
            match r {
                Ok(u) => root@ == ValueRep::End(u@) && u.wf(),
                Err(_) => root@ is Intermediate || root@.bytes().len() != 32,
            },
    {
        match root {
            Value::End(bytes) => {
                if bytes.len() != 32 {
                    return Err(Error::CorruptedDatabase);
                }
                Ok(U256 { bytes: bytes.clone() })
            },
            Value::Intermediate(_) => Err(Error::CorruptedDatabase),
        }
    }
}


impl<DB: WriteBackend, A: FromTree<DB>, B: FromTree<DB>> FromTree<DB> for (A, B) {
    fn from_tree(root: &Value, db: &mut DB) -> (r: Result<Self, Error<DB::Error>>)
        ensures
            r is Ok ==> (spec_get(old(db).store(), root@, crate::index::route_of(2)) matches Some(
                Some(_),
            )) && (spec_get(old(db).store(), root@, crate::index::route_of(3)) matches Some(
                Some(_),
            )),
    {
        let raw = Raw::<Dangling>::from_leaked(root.clone());
        let a_root = match raw.get(db, crate::index::MerkleIndex::root().left()) {
            Ok(Some(v)) => v,
            Ok(None) => {
                return Err(Error::CorruptedDatabase);
            },
            Err(e) => {
                return Err(e);
            },
        };
        let b_root = match raw.get(db, crate::index::MerkleIndex::root().right()) {
            Ok(Some(v)) => v,
            Ok(None) => {
                return Err(Error::CorruptedDatabase);
            },
            Err(e) => {
                return Err(e);
            },
        };
        let a = match A::from_tree(&a_root, db) {
            Ok(v) => v,
            Err(e) => {
                return Err(e);
            },
        };
        let b = match B::from_tree(&b_root, db) {
            Ok(v) => v,
            Err(e) => {
                return Err(e);
            },
        };
        Ok((a, b))
    }
}

impl<DB: WriteBackend, A: FromTree<DB>, B: FromTree<DB>, C: FromTree<DB>> FromTree<DB> for (
    A,
    B,
    C,
) {
    fn from_tree(root: &Value, db: &mut DB) -> (r: Result<Self, Error<DB::Error>>)
        ensures
            r is Ok ==> (spec_get(old(db).store(), root@, crate::index::route_of(4)) matches Some(
                Some(_),
            )) && (spec_get(old(db).store(), root@, crate::index::route_of(5)) matches Some(
                Some(_),
            )) && (spec_get(old(db).store(), root@, crate::index::route_of(6)) matches Some(
                Some(_),
            )),
    {
        let raw = Raw::<Dangling>::from_leaked(root.clone());
        let mut roots: Vec<Value> = Vec::new();
        let mut i: usize = 4;
        while i < 7
            invariant
                4 <= i <= 7,
                db.wf(),
                same_config(db, old(db)),
                db.store() == old(db).store(),
                raw@ == root@,
                roots@.len() == i - 4,
                forall|q: int| 0 <= q < i - 4 ==> spec_get(
                    old(db).store(),
                    root@,
                    crate::index::route_of((q + 4) as nat),
                ) == Some(Some((#[trigger] roots@[q])@)),
            decreases 7 - i,
        {
            let idx = match crate::index::MerkleIndex::from_one(i) {
                Some(idx) => idx,
                None => {
                    proof {
                        assert(false);
                    }
                    return Err(Error::CorruptedDatabase);
                },
            };
            let child = match raw.get(db, idx) {
                Ok(Some(v)) => v,
                Ok(None) => {
                    return Err(Error::CorruptedDatabase);
                },
                Err(e) => {
                    return Err(e);
                },
            };
            roots.push(child);
            i = i + 1;
        }
        let c_root = match roots.pop() {
            Some(v) => v,
            None => {
                proof {
                    assert(false);
                }
                return Err(Error::CorruptedDatabase);
            },
        };
        let b_root = match roots.pop() {
            Some(v) => v,
            None => {
                proof {
                    assert(false);
                }
                return Err(Error::CorruptedDatabase);
            },
        };
        let a_root = match roots.pop() {
            Some(v) => v,
            None => {
                proof {
                    assert(false);
                }
                return Err(Error::CorruptedDatabase);
            },
        };
        let a = match A::from_tree(&a_root, db) {
            Ok(v) => v,
            Err(e) => {
                return Err(e);
            },
        };
        let b = match B::from_tree(&b_root, db) {
            Ok(v) => v,
            Err(e) => {
                return Err(e);
            },
        };
        let c = match C::from_tree(&c_root, db) {
            Ok(v) => v,
            Err(e) => {
                return Err(e);
            },
        };
        Ok((a, b, c))
    }
}


/// The number named by up to `count` booleans starting at `base`, lowest
/// bit first; positions past the sequence count as zero.
pub open spec fn bools_bits(values: Seq<bool>, base: int, count: nat) -> nat
    decreases count,
{
    if count == 0 {
        0
    } else {
        ((if 0 <= base < values.len() && values[base] {
            1nat
        } else {
            0nat
        }) + 2 * bools_bits(values, base + 1, (count - 1) as nat)) as nat
    }
}

/// Booleans packed eight to a byte, lowest bit first, the last byte
/// zero-padded.
pub open spec fn spec_bool_bytes(values: Seq<bool>) -> Seq<u8> {
    Seq::new(
        spec_host_len(values.len(), 8, 1),
        |i: int| bools_bits(values, 8 * i, 8) as u8,
    )
}

/// Whether every bit from `from` on is zero in the packed bytes.
pub open spec fn bits_tail_zero(bytes: Seq<u8>, from: nat) -> bool {
    forall|j: int| from <= j < bytes.len() * 8 ==> !spec_bit(bytes, j)
}

/// The bit at position `j` of packed bytes, lowest bit of each byte
/// first.
pub open spec fn spec_bit(bytes: Seq<u8>, j: int) -> bool {
    0 <= j < bytes.len() * 8 && (bytes[j / 8] as nat / pow2((j % 8) as nat)) % 2 == 1
}

/// Packed bits stay below eight-bit range.
proof fn lemma_bools_bits_bound(values: Seq<bool>, base: int, count: nat)
    ensures
        bools_bits(values, base, count) < pow2(count),
    decreases count,
{
    if count > 0 {
        lemma_bools_bits_bound(values, base + 1, (count - 1) as nat);
    }
}

/// Pack booleans into bytes, eight per byte, lowest bit first.
#[verifier::loop_isolation(false)]
fn pack_bools(values: &Vec<bool>) -> (r: Vec<u8>)
    requires
        values@.len() <= usize::MAX - 7,
    ensures
        r@ == spec_bool_bytes(values@),
{
    let n = values.len();
    let byte_len = (n + 7) / 8;
    proof {
        vstd::arithmetic::mul::lemma_mul_basics(n as int);
        vstd::arithmetic::div_mod::lemma_fundamental_div_mod(n as int, 8);
        vstd::arithmetic::div_mod::lemma_fundamental_div_mod(n as int + 7, 8);
        vstd::arithmetic::div_mod::lemma_mod_bound(n as int, 8);
        vstd::arithmetic::div_mod::lemma_mod_bound(n as int + 7, 8);
        assert(byte_len == spec_host_len(n as nat, 8, 1));
    }
    let mut out: Vec<u8> = Vec::new();
    let mut i: usize = 0;
    while i < byte_len
        invariant
            i <= byte_len,
            out@.len() == i,
            forall|q: int| 0 <= q < i ==> out@[q] == bools_bits(values@, 8 * q, 8) as u8,
        decreases byte_len - i,
    {
        let mut acc: u8 = 0;
        let mut j: usize = 8;
        proof {
            crate::vector::lemma_pow2_pos(8);
        }
        while j > 0
            invariant
                j <= 8,
                i < byte_len,
                acc as nat == bools_bits(values@, 8 * i + j, (8 - j) as nat),
                acc < pow2((8 - j) as nat),
            decreases j,
        {
            j = j - 1;
            let base = i * 8;
            let bit: u8 = if base <= usize::MAX - j && base + j < n && values[base + j] {
                1
            } else {
                0
            };
            proof {
                vstd::arithmetic::mul::lemma_mul_is_commutative(i as int, 8);
                assert(pow2((8 - j) as nat) == 2 * pow2((8 - j - 1) as nat));
                assert(pow2(8) == 256) by {
                    crate::codec::lemma_pow2_vals();
                }
                crate::vector::lemma_pow2_mono((8 - j) as nat, 8);
                assert((bit == 1) == (0 <= 8 * i + j < values@.len() && values@[8 * i + j]));
            }
            acc = acc * 2 + bit;
        }
        proof {
            assert(out@.push(acc)[i as int] == acc);
        }
        out.push(acc);
        i = i + 1;
    }
    proof {
        assert(out@ =~= spec_bool_bytes(values@));
    }
    out
}

/// The powers of two at byte width.
pub proof fn lemma_pow2_vals()
    ensures
        pow2(1) == 2,
        pow2(2) == 4,
        pow2(3) == 8,
        pow2(4) == 16,
        pow2(5) == 32,
        pow2(6) == 64,
        pow2(7) == 128,
        pow2(8) == 256,
{
    reveal_with_fuel(crate::vector::pow2, 9);
}


/// The booleans named by the low `len` bits of packed bytes.
pub open spec fn spec_unpack_bits(bytes: Seq<u8>, len: nat) -> Seq<bool> {
    Seq::new(len, |i: int| spec_bit(bytes, i))
}

/// Two to a small power, as a byte.
fn bit_weight(j: usize) -> (r: u8)
    requires
        j < 8,
    ensures
        r == pow2(j as nat),
{
    proof {
        lemma_pow2_vals();
    }
    match j {
        0 => 1,
        1 => 2,
        2 => 4,
        3 => 8,
        4 => 16,
        5 => 32,
        6 => 64,
        _ => 128,
    }
}

/// Read the low `len` bits of packed bytes back as booleans.
#[verifier::loop_isolation(false)]
fn unpack_bools(bytes: &Vec<u8>, len: usize) -> (r: Vec<bool>)
    requires
        len <= bytes@.len() * 8,
        bytes@.len() <= usize::MAX / 8,
    ensures
        r@ == spec_unpack_bits(bytes@, len as nat),
{
    let mut out: Vec<bool> = Vec::new();
    let mut i: usize = 0;
    while i < len
        invariant
            i <= len,
            out@.len() == i,
            forall|q: int| 0 <= q < i ==> out@[q] == spec_bit(bytes@, q),
        decreases len - i,
    {
        proof {
            vstd::arithmetic::div_mod::lemma_fundamental_div_mod(i as int, 8);
            vstd::arithmetic::div_mod::lemma_mod_bound(i as int, 8);
            vstd::arithmetic::mul::lemma_mul_inequality(
                (i / 8) as int + 1,
                bytes@.len() as int,
                8,
            );
            vstd::arithmetic::mul::lemma_mul_is_commutative((i / 8) as int + 1, 8);
            vstd::arithmetic::mul::lemma_mul_is_commutative(bytes@.len() as int, 8);
            vstd::arithmetic::mul::lemma_mul_is_distributive_add_other_way(
                8,
                (i / 8) as int,
                1,
            );
        }
        let byte = bytes[i / 8];
        let weight = bit_weight(i % 8);
        proof {
            lemma_pow2_vals();
            crate::vector::lemma_pow2_pos((i % 8) as nat);
        }
        let bit = (byte / weight) % 2 == 1;
        out.push(bit);
        i = i + 1;
    }
    proof {
        assert(out@ =~= spec_unpack_bits(bytes@, len as nat));
    }
    out
}

/// Check that every bit from `from` on is zero in the packed bytes.
#[verifier::loop_isolation(false)]
fn check_bits_tail_zero(bytes: &Vec<u8>, from: usize) -> (r: bool)
    requires
        bytes@.len() <= usize::MAX / 8,
    ensures
        r == bits_tail_zero(bytes@, from as nat),
{
    let total = bytes.len() * 8;
    if from >= total {
        return true;
    }
    let mut j: usize = from;
    while j < total
        invariant
            from <= j <= total,
            total == bytes@.len() * 8,
            forall|q: int| from <= q < j ==> !spec_bit(bytes@, q),
        decreases total - j,
    {
        proof {
            vstd::arithmetic::div_mod::lemma_fundamental_div_mod(j as int, 8);
            vstd::arithmetic::div_mod::lemma_mod_bound(j as int, 8);
            vstd::arithmetic::mul::lemma_mul_inequality(
                (j / 8) as int + 1,
                bytes@.len() as int,
                8,
            );
            vstd::arithmetic::mul::lemma_mul_is_commutative((j / 8) as int + 1, 8);
            vstd::arithmetic::mul::lemma_mul_is_commutative(bytes@.len() as int, 8);
            vstd::arithmetic::mul::lemma_mul_is_distributive_add_other_way(
                8,
                (j / 8) as int,
                1,
            );
        }
        let byte = bytes[j / 8];
        let weight = bit_weight(j % 8);
        proof {
            crate::vector::lemma_pow2_pos((j % 8) as nat);
        }
        if (byte / weight) % 2 == 1 {
            proof {
                assert(spec_bit(bytes@, j as int));
            }
            return false;
        }
        j = j + 1;
    }
    true
}

/// Serialize a boolean vector: eight booleans per byte, lowest bit first,
/// bytes packed into leaves sized for `max_len` booleans.
pub fn into_bool_vector_tree<DB: WriteBackend>(
    values: &Vec<bool>,
    db: &mut DB,
    max_len: Option<usize>,
) -> (r: Result<Value, Error<DB::Error>>)
    requires
        old(db).wf(),
        values@.len() <= usize::MAX / 256,
        match max_len {
            Some(m) => values@.len() <= m && m <= usize::MAX / 256,
            None => true,
        },
    ensures
        final(db).wf(),
        same_config(final(db), old(db)),
        old(db).is_noop() ==> r is Ok,
        ({
            let bytes = spec_bool_bytes(values@);
            let bcap = match max_len {
                Some(m) => Some(spec_host_len(m as nat, 8, 1)),
                None => None::<nat>,
            };
            let o = spec_packed_vector_tree::<u8>(old(db).store(), bytes, bcap, db_config(old(db)));
            final(db).store() == o.0 && (r is Ok) == o.2 && (r matches Ok(v) ==> v@
                == packed_vector_root(bytes, bcap, old(db).unit_policy(), old(db).empty_end()))
        }),
{
    let bytes = pack_bools(values);
    proof {
        lemma_host_len_div8(values@.len());
        match max_len {
            Some(m) => {
                lemma_host_len_div8(m as nat);
                crate::packed::lemma_host_len_mono(values@.len(), m as nat, 8, 1);
            },
            None => {},
        }
    }
    let byte_cap = match max_len {
        Some(m) => Some((m + 7) / 8),
        None => None,
    };
    ElementalFixedVecRef(&bytes).into_compact_vector_tree(db, byte_cap)
}

/// The byte count of packed booleans in machine terms.
proof fn lemma_host_len_div8(len: nat)
    ensures
        spec_host_len(len, 8, 1) == (len + 7) / 8,
        spec_host_len(len, 8, 1) <= len / 8 + 1,
{
    vstd::arithmetic::mul::lemma_mul_basics(len as int);
    vstd::arithmetic::div_mod::lemma_fundamental_div_mod(len as int, 8);
    vstd::arithmetic::div_mod::lemma_fundamental_div_mod(len as int + 7, 8);
    vstd::arithmetic::div_mod::lemma_mod_bound(len as int, 8);
    vstd::arithmetic::div_mod::lemma_mod_bound(len as int + 7, 8);
}

/// Serialize a boolean list: the packed boolean vector at the bound's
/// capacity with the boolean count mixed in.
pub fn into_bool_list_tree<DB: WriteBackend>(
    values: &Vec<bool>,
    db: &mut DB,
    max_len: Option<usize>,
) -> (r: Result<Value, Error<DB::Error>>)
    requires
        old(db).wf(),
        values@.len() <= usize::MAX / 256,
        match max_len {
            Some(m) => values@.len() <= m && m <= usize::MAX / 256,
            None => true,
        },
    ensures
        final(db).wf(),
        same_config(final(db), old(db)),
        old(db).is_noop() ==> r is Ok,
        ({
            let bytes = spec_bool_bytes(values@);
            let bcap = match max_len {
                Some(m) => Some(spec_host_len(m as nat, 8, 1)),
                None => None::<nat>,
            };
            let c = db_config(old(db));
            let o = spec_packed_vector_tree::<u8>(old(db).store(), bytes, bcap, c);
            if !o.2 {
                final(db).store() == o.0 && r is Err
            } else {
                let left = packed_vector_root(bytes, bcap, c.unit, c.end);
                let len_leaf = ValueRep::End(le_bytes_of(values@.len(), 32));
                let key = crate::traits::hash_of_pair(left, len_leaf);
                let ins = crate::store::store_insert_res(o.0, key, (left, len_leaf));
                final(db).store() == (if c.noop {
                    o.0
                } else {
                    ins.0
                }) && match r {
                    Ok(v) => (c.noop || ins.1) && v@ == ValueRep::Intermediate(key),
                    Err(_) => !c.noop && !ins.1,
                }
            }
        }),
{
    let left = match into_bool_vector_tree(values, db, max_len) {
        Ok(v) => v,
        Err(e) => {
            return Err(e);
        },
    };
    mix_in_length(left, db, values.len())
}

/// Rebuild a boolean vector of the given length from packed leaves,
/// rejecting any set bit past the length.
#[verifier::rlimit(50)]
pub fn from_bool_vector_tree<DB: WriteBackend>(
    root: &Value,
    db: &mut DB,
    len: usize,
    max_len: Option<usize>,
) -> (r: Result<Vec<bool>, Error<DB::Error>>)
    requires
        old(db).wf(),
        len <= usize::MAX / 8192,
        match max_len {
            Some(m) => len <= m && m <= usize::MAX / 8192,
            None => true,
        },
    ensures
        final(db).wf(),
        same_config(final(db), old(db)),
        final(db).store() == old(db).store(),
        ({
            let s = old(db).store();
            let byte_len = spec_host_len(len as nat, 8, 1);
            let trep = packed_tuple_rep::<u8>(
                root@,
                byte_len,
                match max_len {
                    Some(m) => Some(spec_host_len(m as nat, 8, 1)),
                    None => None,
                },
            );
            let bytes = spec_read_bytes(s, trep, byte_len);
            let cond = packed_reads_ok::<u8>(s, trep, byte_len) && bits_tail_zero(
                bytes,
                len as nat,
            );
            &&& cond ==> r is Ok
            &&& r is Ok ==> cond
            &&& (r matches Ok(v) ==> v@ == spec_unpack_bits(bytes, len as nat) && v@.len()
                == len)
        }),
{
    proof {
        lemma_host_len_div8(len as nat);
        vstd::arithmetic::div_mod::lemma_div_is_ordered(len as int, usize::MAX as int, 8192);
        match max_len {
            Some(m) => {
                lemma_host_len_div8(m as nat);
                crate::packed::lemma_host_len_mono(len as nat, m as nat, 8, 1);
            },
            None => {},
        }
    }
    let byte_len = (len + 7) / 8;
    let byte_cap = match max_len {
        Some(m) => Some((m + 7) / 8),
        None => None,
    };
    let ghost mbytes: Option<nat> = match max_len {
        Some(m) => Some(spec_host_len(m as nat, 8, 1)),
        None => None,
    };
    let ghost trep = packed_tuple_rep::<u8>(root@, byte_len as nat, mbytes);
    let bytes = match from_compact_vector_tree::<u8, DB>(root, db, byte_len, byte_cap) {
        Ok(bytes) => bytes,
        Err(e) => {
            return Err(e);
        },
    };
    proof {
        lemma_pow256_values();
        assert forall|i: int| 0 <= i < byte_len implies bytes@[i] == spec_read_bytes(
            old(db).store(),
            trep,
            byte_len as nat,
        )[i] by {
            assert(reads_back::<u8>(old(db).store(), trep, i as nat, bytes@[i]));
            crate::packed::lemma_coverings(i as nat, 32, 1);
            crate::packed::lemma_packed_read_len(
                old(db).store(),
                trep,
                crate::packed::spec_coverings(i as nat, 32, 1).0,
                crate::packed::spec_coverings(i as nat, 32, 1).1,
            );
            match packed_read_at::<u8>(old(db).store(), trep, i as nat) {
                Some(bs) => {
                    lemma_le_value_bound(bs);
                },
                None => {},
            }
        }
        assert(bytes@ =~= spec_read_bytes(old(db).store(), trep, byte_len as nat));
    }
    if !check_bits_tail_zero(&bytes, len) {
        return Err(Error::CorruptedDatabase);
    }
    proof {
        vstd::arithmetic::mul::lemma_mul_is_distributive_add_other_way(
            8,
            (len / 8) as int,
            1,
        );
        vstd::arithmetic::div_mod::lemma_fundamental_div_mod(len as int, 8);
        vstd::arithmetic::div_mod::lemma_mod_bound(len as int, 8);
    }
    let out = unpack_bools(&bytes, len);
    Ok(out)
}

/// Rebuild a boolean list: read the mixed-in count, then the packed
/// boolean vector, rejecting set bits past the count.
pub fn from_bool_list_tree<DB: WriteBackend>(
    root: &Value,
    db: &mut DB,
    max_len: Option<usize>,
) -> (r: Result<Vec<bool>, Error<DB::Error>>)
    requires
        old(db).wf(),
        match max_len {
            Some(m) => m <= usize::MAX / 8192,
            None => true,
        },
    ensures
        final(db).wf(),
        same_config(final(db), old(db)),
        final(db).store() == old(db).store(),
        ({
            let s = old(db).store();
            let count = mixed_len(s, root@);
            let byte_len = spec_host_len(count, 8, 1);
            let trep = packed_tuple_rep::<u8>(
                mixed_left(s, root@),
                byte_len,
                match max_len {
                    Some(m) => Some(spec_host_len(m as nat, 8, 1)),
                    None => None,
                },
            );
            let bytes = spec_read_bytes(s, trep, byte_len);
            let cond = mixed_pair_ok(s, root@) && count <= usize::MAX / 8192 && (match max_len {
                Some(m) => count <= m,
                None => true,
            }) && packed_reads_ok::<u8>(s, trep, byte_len) && bits_tail_zero(bytes, count);
            &&& cond ==> r is Ok
            &&& r is Ok ==> cond
            &&& (r matches Ok(v) ==> v@ == spec_unpack_bits(bytes, count) && v@.len() == count)
        }),
{
    let decoded = match decode_with_length(root, db) {
        Ok(pair) => pair,
        Err(e) => {
            return Err(e);
        },
    };
    let (vector_root, len) = decoded;
    if len > usize::MAX / 8192 {
        return Err(Error::CorruptedDatabase);
    }
    match max_len {
        Some(m) => {
            if len > m {
                return Err(Error::CorruptedDatabase);
            }
        },
        None => {},
    }
    from_bool_vector_tree(&vector_root, db, len, max_len)
}

} // verus!

//! Utilities: depths, packed-host lengths, little-endian length chunks, and
//! bulk tree construction.

use vstd::prelude::*;

use crate::store::{store_insert_res, StoreRep};
use crate::traits::{
    db_config, intermediate_of, same_config, Backend, DbConfig, Error, Value, ValueRep,
    WriteBackend,
};
use crate::vector::{depth_for, lemma_next_pow2_eq, lemma_next_pow2_ge, pow2};

verus! {

/// Required depth of given length.
pub fn required_depth(len: usize) -> (r: usize)
    requires
        len <= usize::MAX / 4,
    ensures
        r == depth_for(len as nat),
{
    crate::vector::depth_of_len(len)
}

/// The little-endian bytes of a number, low byte first.
pub open spec fn le_bytes_of(n: nat, count: nat) -> Seq<u8>
    decreases count,
{
    if count == 0 {
        Seq::empty()
    } else {
        seq![(n % 256) as u8] + le_bytes_of(n / 256, (count - 1) as nat)
    }
}

/// The number named by little-endian bytes, low byte first.
pub open spec fn le_value(bytes: Seq<u8>) -> nat
    decreases bytes.len(),
{
    if bytes.len() == 0 {
        0
    } else {
        (bytes[0] + 256 * le_value(bytes.drop_first())) as nat
    }
}

/// 256 to the given power.
pub open spec fn pow256(e: nat) -> nat
    decreases e,
{
    if e == 0 {
        1
    } else {
        256 * pow256((e - 1) as nat)
    }
}

/// Encoding then decoding a number below the range bound returns it.
pub proof fn lemma_le_round_trip(n: nat, count: nat)
    requires
        n < pow256(count),
    ensures
        le_value(le_bytes_of(n, count)) == n,
    decreases count,
{
    if count > 0 {
        lemma_le_round_trip(n / 256, (count - 1) as nat);
        assert(le_bytes_of(n, count).drop_first() =~= le_bytes_of(n / 256, (count - 1) as nat));
    }
}

/// Encode a length as a 32-byte little-endian chunk.
#[verifier::loop_isolation(false)]
pub fn encode_length(len: usize) -> (r: Vec<u8>)
    ensures
        r@ == le_bytes_of(len as nat, 32),
        r@.len() == 32,
{
    let mut out: Vec<u8> = Vec::new();
    let mut cur: usize = len;
    let mut i: usize = 0;
    proof {
        assert(le_bytes_of(len as nat, 32) =~= Seq::<u8>::empty() + le_bytes_of(len as nat, 32));
    }
    while i < 32
        invariant
            i <= 32,
            out@.len() == i,
            le_bytes_of(len as nat, 32) =~= out@ + le_bytes_of(cur as nat, (32 - i) as nat),
        decreases 32 - i,
    {
        let b: u8 = (cur % 256) as u8;
        proof {
            assert(le_bytes_of(cur as nat, (32 - i) as nat) =~= seq![b] + le_bytes_of(
                (cur / 256) as nat,
                (32 - i - 1) as nat,
            ));
            assert(out@ + le_bytes_of(cur as nat, (32 - i) as nat) =~= out@.push(b)
                + le_bytes_of((cur / 256) as nat, (32 - i - 1) as nat));
        }
        out.push(b);
        cur = cur / 256;
        i = i + 1;
    }
    proof {
        assert(le_bytes_of(cur as nat, 0) =~= Seq::<u8>::empty());
        assert(out@ + le_bytes_of(cur as nat, 0) =~= out@);
    }
    out
}

/// Decode a 32-byte little-endian chunk back into a length; lengths above
/// the machine's index range are rejected.
#[verifier::loop_isolation(false)]
pub fn decode_length(bytes: &Vec<u8>) -> (r: Option<usize>)
    ensures
        match r {
            Some(n) => bytes@.len() == 32 && le_value(bytes@) == n,
            None => bytes@.len() != 32 || le_value(bytes@) > usize::MAX,
        },
{
    if bytes.len() != 32 {
        return None;
    }
    let mut acc: usize = 0;
    let mut i: usize = 32;
    proof {
        assert(bytes@.skip(32) =~= Seq::<u8>::empty());
    }
    while i > 0
        invariant
            i <= 32,
            bytes@.len() == 32,
            le_value(bytes@.skip(i as int)) == acc,
        decreases i,
    {
        i = i - 1;
        let b = bytes[i];
        proof {
            assert(bytes@.skip(i as int)[0] == bytes@[i as int]);
            assert(bytes@.skip(i as int).drop_first() =~= bytes@.skip(i as int + 1));
        }
        if acc > (usize::MAX - b as usize) / 256 {
            proof {
                assert(le_value(bytes@.skip(i as int)) == b + 256 * acc);
                assert(256 * acc >= 256 * (((usize::MAX - b) / 256) + 1));
                assert(256 * ((usize::MAX - b as usize) / 256) + 255 >= usize::MAX - b);
                lemma_le_suffix_le(bytes@, 0, i as nat);
                assert(bytes@.skip(0) =~= bytes@);
            }
            return None;
        }
        acc = acc * 256 + b as usize;
    }
    proof {
        assert(bytes@.skip(0) =~= bytes@);
    }
    Some(acc)
}

/// Later suffixes decode to no more than earlier ones.
proof fn lemma_le_suffix_le(bytes: Seq<u8>, j: nat, i: nat)
    requires
        j <= i <= bytes.len(),
    ensures
        le_value(bytes.skip(j as int)) >= le_value(bytes.skip(i as int)),
    decreases i - j,
{
    if j < i {
        lemma_le_suffix_le(bytes, (j + 1) as nat, i);
        assert(bytes.skip(j as int)[0] == bytes[j as int]);
        assert(bytes.skip(j as int).drop_first() =~= bytes.skip(j as int + 1));
    }
}

/// Get the host length of a packed vector: how many host leaves of width
/// `host_width` hold `value_len` values of width `value_width`.
pub open spec fn spec_host_len(value_len: nat, host_width: nat, value_width: nat) -> nat {
    if host_width == 0 {
        0
    } else {
        let bytes = value_len * value_width;
        if bytes % host_width == 0 {
            bytes / host_width
        } else {
            bytes / host_width + 1
        }
    }
}

/// Get the host length of a packed vector.
pub fn host_len(value_len: usize, host_width: usize, value_width: usize) -> (r: usize)
    requires
        host_width > 0,
        value_len * value_width <= usize::MAX,
    ensures
        r == spec_host_len(value_len as nat, host_width as nat, value_width as nat),
{
    let bytes = value_len * value_width;
    let q = bytes / host_width;
    if bytes % host_width == 0 {
        q
    } else {
        proof {
            vstd::arithmetic::div_mod::lemma_div_is_ordered_by_denominator(
                bytes as int,
                2,
                host_width as int,
            );
            assert(host_width >= 2);
        }
        q + 1
    }
}

/// The root of the subtree of the given depth holding the given leaf
/// values left-aligned, and the store reached by inserting every interior
/// node; positions past the values hold empty subtrees.
pub open spec fn spec_vector_tree(s: StoreRep, values: Seq<ValueRep>, depth: nat, c: DbConfig) -> (
    StoreRep,
    ValueRep,
    bool,
)
    decreases depth,
{
    if depth == 0 {
        if values.len() == 0 {
            (s, ValueRep::End(c.end), true)
        } else {
            (s, values[0], true)
        }
    } else if values.len() == 0 {
        (
            if c.noop || c.unit {
                s
            } else {
                crate::store::empty_chain_store(s, depth, c.end)
            },
            crate::store::empty_root(depth, c.unit, c.end),
            true,
        )
    } else {
        let half = pow2((depth - 1) as nat);
        let lv = if values.len() <= half {
            values
        } else {
            values.take(half as int)
        };
        let rv = if values.len() <= half {
            Seq::<ValueRep>::empty()
        } else {
            values.skip(half as int)
        };
        let l = spec_vector_tree(s, lv, (depth - 1) as nat, c);
        if !l.2 {
            (l.0, l.1, false)
        } else {
            let r = spec_vector_tree(l.0, rv, (depth - 1) as nat, c);
            if !r.2 {
                (r.0, r.1, false)
            } else {
                let key = crate::traits::hash_of_pair(l.1, r.1);
                if c.noop {
                    (r.0, ValueRep::Intermediate(key), true)
                } else {
                    let ins = store_insert_res(r.0, key, (l.1, r.1));
                    (ins.0, ValueRep::Intermediate(key), ins.1)
                }
            }
        }
    }
}

/// The views of a sequence of tree values.
pub open spec fn values_rep(values: Seq<Value>) -> Seq<ValueRep> {
    values.map_values(|v: Value| v@)
}

/// Two to the given power, executably.
#[verifier::loop_isolation(false)]
pub(crate) fn pow2_len(d: usize) -> (r: usize)
    requires
        pow2(d as nat) <= usize::MAX / 2,
    ensures
        r == pow2(d as nat),
{
    let mut r: usize = 1;
    let mut i: usize = 0;
    while i < d
        invariant
            i <= d,
            r == pow2(i as nat),
        decreases d - i,
    {
        proof {
            crate::vector::lemma_pow2_mono(i as nat + 1, d as nat);
        }
        r = r * 2;
        i = i + 1;
    }
    r
}

/// Build the subtree of `values[lo..hi]` at the given depth, inserting
/// every interior node into the backend.
fn build_range<DB: WriteBackend>(
    db: &mut DB,
    values: &Vec<Value>,
    lo: usize,
    hi: usize,
    depth: usize,
) -> (r: Result<Value, Error<DB::Error>>)
    requires
        old(db).wf(),
        lo <= hi <= values@.len(),
        hi - lo <= pow2(depth as nat),
        pow2(depth as nat) <= usize::MAX / 2,
    ensures
        final(db).wf(),
        same_config(final(db), old(db)),
        ({
            let o = spec_vector_tree(
                old(db).store(),
                values_rep(values@.subrange(lo as int, hi as int)),
                depth as nat,
                db_config(old(db)),
            );
            final(db).store() == o.0 && match r {
                Ok(v) => o.2 && v@ == o.1,
                Err(_) => !o.2,
            }
        }),
    decreases depth,
{
    let ghost vr = values_rep(values@.subrange(lo as int, hi as int));
    if depth == 0 {
        if lo == hi {
            let blank: Vec<u8> = Vec::new();
            let e = match db.empty_at(0) {
                Ok(v) => v,
                Err(_) => {
                    proof {
                        assert(false);
                    }
                    return Err(Error::CorruptedDatabase);
                },
            };
            proof {
                assert(vr.len() == 0);
            }
            return Ok(e);
        } else {
            proof {
                assert(vr[0] == values@[lo as int]@);
            }
            return Ok(values[lo].clone());
        }
    }
    if lo == hi {
        let e = match db.empty_at(depth) {
            Ok(v) => v,
            Err(_) => {
                proof {
                    assert(false);
                }
                return Err(Error::CorruptedDatabase);
            },
        };
        proof {
            assert(vr.len() == 0);
        }
        return Ok(e);
    }
    let half = pow2_len(depth - 1);
    let mid = if hi - lo <= half {
        hi
    } else {
        lo + half
    };
    proof {
        let whole = values@.subrange(lo as int, hi as int);
        assert(vr.len() == hi - lo);
        if hi - lo <= half {
            assert(whole.len() <= half);
            assert(values_rep(values@.subrange(mid as int, hi as int)) =~= Seq::<
                ValueRep,
            >::empty());
        } else {
            assert(values_rep(values@.subrange(lo as int, mid as int)) =~= values_rep(
                whole.take(half as int),
            ));
            assert(values_rep(values@.subrange(mid as int, hi as int)) =~= values_rep(
                whole.skip(half as int),
            ));
        }
        assert(values_rep(values@.subrange(lo as int, mid as int)) == (if vr.len() <= pow2(
            (depth - 1) as nat,
        ) {
            vr
        } else {
            vr.take(pow2((depth - 1) as nat) as int)
        }));
        assert(values_rep(values@.subrange(mid as int, hi as int)) == (if vr.len() <= pow2(
            (depth - 1) as nat,
        ) {
            Seq::<ValueRep>::empty()
        } else {
            vr.skip(pow2((depth - 1) as nat) as int)
        }));
    }
    let left = match build_range(db, values, lo, mid, depth - 1) {
        Ok(v) => v,
        Err(e) => {
            return Err(e);
        },
    };
    let right = match build_range(db, values, mid, hi, depth - 1) {
        Ok(v) => v,
        Err(e) => {
            return Err(e);
        },
    };
    let key = intermediate_of(&left, &right);
    let key2 = key.clone();
    match db.insert(key2, (left, right)) {
        Ok(_) => {},
        Err(e) => {
            return Err(Error::Backend(e));
        },
    }
    Ok(Value::Intermediate(key))
}

/// Serialize a vector of values into a left-aligned subtree sized for
/// `max_len` values (or for the values themselves).
pub fn vector_tree<DB: WriteBackend>(
    values: &Vec<Value>,
    db: &mut DB,
    max_len: Option<usize>,
) -> (r: Result<Value, Error<DB::Error>>)
    requires
        old(db).wf(),
        values@.len() <= usize::MAX / 4,
        match max_len {
            Some(m) => values@.len() <= m && m <= usize::MAX / 4,
            None => true,
        },
    ensures
        final(db).wf(),
        same_config(final(db), old(db)),
        ({
            let target: nat = match max_len {
                Some(m) => m as nat,
                None => values@.len(),
            };
            let o = spec_vector_tree(
                old(db).store(),
                values_rep(values@),
                depth_for(target),
                db_config(old(db)),
            );
            final(db).store() == o.0 && match r {
                Ok(v) => o.2 && v@ == o.1,
                Err(_) => !o.2,
            }
        }),
{
    let target = match max_len {
        Some(m) => m,
        None => values.len(),
    };
    let depth = required_depth(target);
    proof {
        lemma_next_pow2_eq(target as nat);
        lemma_next_pow2_ge(target as nat);
        crate::vector::lemma_next_pow2_le(if target == 0 {
            1
        } else {
            target as nat
        });
        assert(values@.subrange(0, values@.len() as int) =~= values@);
    }
    build_range(db, values, 0, values.len(), depth)
}

/// Serialize a vector at a given depth, or at the depth its own length
/// requires.
pub fn serialize_vector<DB: WriteBackend>(
    values: &Vec<Value>,
    db: &mut DB,
    at_depth: Option<usize>,
) -> (r: Result<Value, Error<DB::Error>>)
    requires
        old(db).wf(),
        values@.len() <= usize::MAX / 4,
        match at_depth {
            Some(d) => values@.len() <= pow2(d as nat) && pow2(d as nat) <= usize::MAX / 2,
            None => true,
        },
    ensures
        final(db).wf(),
        same_config(final(db), old(db)),
        ({
            let depth = match at_depth {
                Some(d) => d as nat,
                None => depth_for(values@.len() as nat),
            };
            let o = spec_vector_tree(
                old(db).store(),
                values_rep(values@),
                depth,
                db_config(old(db)),
            );
            final(db).store() == o.0 && match r {
                Ok(v) => o.2 && v@ == o.1,
                Err(_) => !o.2,
            }
        }),
{
    proof {
        assert(values@.subrange(0, values@.len() as int) =~= values@);
    }
    match at_depth {
        Some(d) => build_range(db, values, 0, values.len(), d),
        None => {
            let depth = required_depth(values.len());
            proof {
                lemma_next_pow2_eq(values@.len() as nat);
                lemma_next_pow2_ge(values@.len() as nat);
                crate::vector::lemma_next_pow2_le(if values@.len() == 0 {
                    1
                } else {
                    values@.len() as nat
                });
            }
            build_range(db, values, 0, values.len(), depth)
        },
    }
}

/// Serializable type of merkle.
pub trait Serialize<DB: WriteBackend> {
    /// Serialize this value into a merkle value, writing nodes into the
    /// given database.
    fn serialize(&self, db: &mut DB) -> Result<Value, Error<DB::Error>>;
}

} // verus!

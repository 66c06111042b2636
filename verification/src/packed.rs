//! Packed merkle sequences: logical values of a fixed byte width sharing
//! wider host leaves.

use vstd::prelude::*;

use core::marker::PhantomData;

use crate::index::route_of;
use crate::raw::{spec_get, spec_tree_drop, Raw};
use crate::store::StoreRep;
use crate::traits::{
    db_config, same_config, Backend, Dangling, DbConfig, Error, Leak, Owned, RootStatus,
    Sequence, Tree, Value, ValueRep, WriteBackend,
};
use crate::utils::spec_host_len;
use crate::vector::{
    cml, spec_vector_pop, spec_vector_push, spec_vector_set, vector_wf, Vector, VectorRep,
};

verus! {

/// A sequence of zero bytes.
pub open spec fn zero_bytes(n: nat) -> Seq<u8> {
    Seq::new(n, |i: int| 0u8)
}

/// The byte ranges after the first host leaf that a value of the given
/// remaining width covers.
pub open spec fn rest_ranges(rest: nat, hw: nat) -> Seq<(nat, nat)>
    decreases rest,
        when hw >= 1
{
    if rest == 0 {
        Seq::empty()
    } else {
        let step = if rest < hw {
            rest
        } else {
            hw
        };
        seq![(0nat, step)] + rest_ranges((rest - step) as nat, hw)
    }
}

/// The host leaves and byte ranges covered by the value at the given
/// index: the base host index and one byte range per host leaf.
pub open spec fn spec_coverings(idx: nat, hw: nat, vw: nat) -> (nat, Seq<(nat, nat)>) {
    let bytes = vw * idx;
    let off = bytes % hw;
    let first_end = if off + vw < hw {
        off + vw
    } else {
        hw
    };
    (
        bytes / hw,
        seq![(off, first_end)] + rest_ranges((vw - (first_end - off)) as nat, hw),
    )
}

/// The total width of a sequence of ranges.
pub open spec fn ranges_width(ranges: Seq<(nat, nat)>) -> nat
    decreases ranges.len(),
{
    if ranges.len() == 0 {
        0
    } else {
        (ranges[0].1 - ranges[0].0 + ranges_width(ranges.drop_first())) as nat
    }
}

/// Each range of the tail covers at least one byte, starts at zero, and
/// ends within the host width; the tail covers the remaining width.
pub proof fn lemma_rest_ranges(rest: nat, hw: nat)
    requires
        hw >= 1,
    ensures
        ranges_width(rest_ranges(rest, hw)) == rest,
        rest_ranges(rest, hw).len() <= rest,
        forall|i: int| 0 <= i < rest_ranges(rest, hw).len() ==> (#[trigger] rest_ranges(
            rest,
            hw,
        )[i]).0 == 0 && rest_ranges(rest, hw)[i].0 < rest_ranges(rest, hw)[i].1 <= hw,
    decreases rest,
{
    if rest > 0 {
        let step = if rest < hw {
            rest
        } else {
            hw
        };
        lemma_rest_ranges((rest - step) as nat, hw);
        assert(rest_ranges(rest, hw).drop_first() =~= rest_ranges((rest - step) as nat, hw));
    }
}

/// The ranges of a covering fill the value width exactly, and each stays
/// within a host leaf.
pub proof fn lemma_coverings(idx: nat, hw: nat, vw: nat)
    requires
        hw >= 1,
        vw >= 1,
    ensures
        ranges_width(spec_coverings(idx, hw, vw).1) == vw,
        spec_coverings(idx, hw, vw).1.len() <= vw + 1,
        forall|i: int| 0 <= i < spec_coverings(idx, hw, vw).1.len() ==> (
        #[trigger] spec_coverings(idx, hw, vw).1[i]).0 <= spec_coverings(idx, hw, vw).1[i].1
            <= hw,
        spec_coverings(idx, hw, vw).0 <= idx * vw,
{
    let bytes = vw * idx;
    let off = bytes % hw;
    let first_end = if off + vw < hw {
        off + vw
    } else {
        hw
    };
    lemma_rest_ranges((vw - (first_end - off)) as nat, hw);
    assert(spec_coverings(idx, hw, vw).1.drop_first() =~= rest_ranges(
        (vw - (first_end - off)) as nat,
        hw,
    ));
    assert(off < hw) by {
        vstd::arithmetic::div_mod::lemma_mod_bound(bytes as int, hw as int);
    }
    assert(bytes / hw <= bytes) by {
        vstd::arithmetic::div_mod::lemma_div_is_ordered_by_denominator(bytes as int, 1, hw as int);
        vstd::arithmetic::div_mod::lemma_div_basics(bytes as int);
    }
    assert(bytes == idx * vw) by {
        vstd::arithmetic::mul::lemma_mul_is_commutative(vw as int, idx as int);
    }
}

/// Reading the covered byte ranges of one value out of consecutive host
/// leaves: `Some(bytes)` exactly when every read returns an end leaf long
/// enough for its range.
pub open spec fn spec_packed_read(
    s: StoreRep,
    t: VectorRep,
    base: nat,
    ranges: Seq<(nat, nat)>,
) -> Option<Seq<u8>>
    decreases ranges.len(),
{
    if ranges.len() == 0 {
        Some(Seq::empty())
    } else {
        let rg = ranges[0];
        if base >= t.len {
            None
        } else {
            match spec_get(s, t.root, route_of((cml(t.len, t.max_len) + base) as nat)) {
                Some(Some(ValueRep::End(bytes))) => if rg.0 <= rg.1 <= bytes.len() {
                    match spec_packed_read(s, t, base + 1, ranges.drop_first()) {
                        Some(tail) => Some(bytes.subrange(rg.0 as int, rg.1 as int) + tail),
                        None => None,
                    }
                } else {
                    None
                },
                _ => None,
            }
        }
    }
}

/// A packed write keeps the host vector's length and bound.
pub proof fn lemma_packed_write_meta(
    s: StoreRep,
    t: VectorRep,
    base: nat,
    ranges: Seq<(nat, nat)>,
    voff: nat,
    value: Seq<u8>,
    owned: bool,
    c: DbConfig,
)
    ensures
        spec_packed_write(s, t, base, ranges, voff, value, owned, c).1.max_len == t.max_len,
        spec_packed_write(s, t, base, ranges, voff, value, owned, c).1.len == t.len,
    decreases ranges.len(),
{
    if ranges.len() > 0 {
        let rg = ranges[0];
        if base < t.len {
            match spec_get(s, t.root, route_of((cml(t.len, t.max_len) + base) as nat)) {
                Some(Some(ValueRep::End(bytes))) => {
                    if rg.0 <= rg.1 <= bytes.len() && voff + (rg.1 - rg.0) <= value.len() {
                        let patched = bytes.take(rg.0 as int) + value.subrange(
                            voff as int,
                            voff + (rg.1 - rg.0),
                        ) + bytes.skip(rg.1 as int);
                        let o = spec_vector_set(s, t, base, patched, owned, c);
                        if o.2 {
                            lemma_packed_write_meta(
                                o.0,
                                o.1,
                                (base + 1) as nat,
                                ranges.drop_first(),
                                (voff + (rg.1 - rg.0)) as nat,
                                value,
                                owned,
                                c,
                            );
                        }
                    }
                },
                _ => {},
            }
        }
    }
}

/// A successful packed read yields exactly the covered width.
pub proof fn lemma_packed_read_len(s: StoreRep, t: VectorRep, base: nat, ranges: Seq<(nat, nat)>)
    ensures
        spec_packed_read(s, t, base, ranges) matches Some(b) ==> b.len() == ranges_width(
            ranges,
        ),
    decreases ranges.len(),
{
    if ranges.len() > 0 {
        lemma_packed_read_len(s, t, (base + 1) as nat, ranges.drop_first());
    }
}

/// Writing the covered byte ranges of one value into consecutive host
/// leaves: each leaf is read, spliced, and written back.
pub open spec fn spec_packed_write(
    s: StoreRep,
    t: VectorRep,
    base: nat,
    ranges: Seq<(nat, nat)>,
    voff: nat,
    value: Seq<u8>,
    owned: bool,
    c: DbConfig,
) -> (StoreRep, VectorRep, bool)
    decreases ranges.len(),
{
    if ranges.len() == 0 {
        (s, t, true)
    } else {
        let rg = ranges[0];
        if base >= t.len {
            (s, t, false)
        } else {
            match spec_get(s, t.root, route_of((cml(t.len, t.max_len) + base) as nat)) {
                Some(Some(ValueRep::End(bytes))) => if rg.0 <= rg.1 <= bytes.len() && voff + (
                rg.1 - rg.0) <= value.len() {
                    let patched = bytes.take(rg.0 as int) + value.subrange(
                        voff as int,
                        voff + (rg.1 - rg.0),
                    ) + bytes.skip(rg.1 as int);
                    let o = spec_vector_set(s, t, base, patched, owned, c);
                    if !o.2 {
                        (o.0, o.1, false)
                    } else {
                        spec_packed_write(
                            o.0,
                            o.1,
                            base + 1,
                            ranges.drop_first(),
                            (voff + (rg.1 - rg.0)) as nat,
                            value,
                            owned,
                            c,
                        )
                    }
                } else {
                    (s, t, false)
                },
                _ => (s, t, false),
            }
        }
    }
}

/// Pushing zero-filled host leaves until the host vector holds `count`
/// more.
pub open spec fn spec_push_zeros(
    s: StoreRep,
    t: VectorRep,
    count: nat,
    hw: nat,
    owned: bool,
    c: DbConfig,
) -> (StoreRep, VectorRep, bool)
    decreases count,
{
    if count == 0 {
        (s, t, true)
    } else {
        let o = spec_vector_push(s, t, zero_bytes(hw), owned, c);
        if !o.2 {
            (o.0, o.1, false)
        } else {
            spec_push_zeros(o.0, o.1, (count - 1) as nat, hw, owned, c)
        }
    }
}

/// Popping `count` host leaves, dropping their contents.
pub open spec fn spec_pop_hosts(
    s: StoreRep,
    t: VectorRep,
    count: nat,
    owned: bool,
    c: DbConfig,
) -> (StoreRep, VectorRep, bool)
    decreases count,
{
    if count == 0 {
        (s, t, true)
    } else {
        let o = spec_vector_pop(s, t, owned, c);
        if !o.2 {
            (o.0, o.1, false)
        } else {
            spec_pop_hosts(o.0, o.1, (count - 1) as nat, owned, c)
        }
    }
}


/// The whole effect of pushing one value into a packed vector: grow the
/// host vector by enough zero leaves, then write the value's covered
/// ranges.
pub open spec fn spec_packed_push(
    s: StoreRep,
    p: PackedRep,
    value: Seq<u8>,
    owned: bool,
    c: DbConfig,
) -> (StoreRep, PackedRep, bool) {
    let cov = spec_coverings(p.len, p.hw, p.vw);
    let target = cov.0 + cov.1.len();
    let need: nat = if p.tuple.len < target {
        (target - p.tuple.len) as nat
    } else {
        0
    };
    let pz = spec_push_zeros(s, p.tuple, need, p.hw, owned, c);
    if !pz.2 {
        (pz.0, PackedRep { tuple: pz.1, ..p }, false)
    } else {
        let w = spec_packed_write(pz.0, pz.1, cov.0, cov.1, 0, value, owned, c);
        if w.2 {
            (w.0, PackedRep { tuple: w.1, len: (p.len + 1) as nat, ..p }, true)
        } else {
            (w.0, PackedRep { tuple: w.1, ..p }, false)
        }
    }
}

/// The whole effect of popping one value out of a packed vector: read the
/// last value, shrink the host vector to what the remaining values cover,
/// and rewrite the new last value over a freshly zeroed host leaf.
/// Components: store, vector, success, popped bytes.
pub open spec fn spec_packed_pop(s: StoreRep, p: PackedRep, owned: bool, c: DbConfig) -> (
    StoreRep,
    PackedRep,
    bool,
    Option<Seq<u8>>,
) {
    if p.len == 0 {
        (s, p, true, None)
    } else {
        let cov = spec_coverings((p.len - 1) as nat, p.hw, p.vw);
        match spec_packed_read(s, p.tuple, cov.0, cov.1) {
            None => (s, p, false, None),
            Some(bytes) => if p.len == 1 {
                let d = spec_pop_hosts(s, p.tuple, p.tuple.len, owned, c);
                if d.2 {
                    (d.0, PackedRep { tuple: d.1, len: 0, ..p }, true, Some(bytes))
                } else {
                    (d.0, PackedRep { tuple: d.1, ..p }, false, None)
                }
            } else {
                let cov2 = spec_coverings((p.len - 2) as nat, p.hw, p.vw);
                let target2 = cov2.0 + cov2.1.len();
                let need: nat = if p.tuple.len > target2 {
                    (p.tuple.len - target2) as nat
                } else {
                    0
                };
                let d = spec_pop_hosts(s, p.tuple, need, owned, c);
                if !d.2 {
                    (d.0, PackedRep { tuple: d.1, ..p }, false, None)
                } else {
                    match spec_packed_read(d.0, d.1, cov2.0, cov2.1) {
                        None => (d.0, PackedRep { tuple: d.1, ..p }, false, None),
                        Some(last) => {
                            let p1 = spec_vector_pop(d.0, d.1, owned, c);
                            if !p1.2 {
                                (p1.0, PackedRep { tuple: p1.1, ..p }, false, None)
                            } else {
                                let p2 = spec_vector_push(
                                    p1.0,
                                    p1.1,
                                    zero_bytes(p.hw),
                                    owned,
                                    c,
                                );
                                if !p2.2 {
                                    (p2.0, PackedRep { tuple: p2.1, ..p }, false, None)
                                } else {
                                    let w = spec_packed_write(
                                        p2.0,
                                        p2.1,
                                        cov2.0,
                                        cov2.1,
                                        0,
                                        last,
                                        owned,
                                        c,
                                    );
                                    if w.2 {
                                        (
                                            w.0,
                                            PackedRep {
                                                tuple: w.1,
                                                len: (p.len - 1) as nat,
                                                ..p
                                            },
                                            true,
                                            Some(bytes),
                                        )
                                    } else {
                                        (w.0, PackedRep { tuple: w.1, ..p }, false, None)
                                    }
                                }
                            }
                        },
                    }
                }
            }
        }
    }
}

/// The mathematical content of a packed vector.
pub struct PackedRep {
    /// The host vector of wide leaves.
    pub tuple: VectorRep,
    /// Number of logical values.
    pub len: nat,
    /// Bound on the number of logical values, when fixed.
    pub max_len: Option<nat>,
    /// Host leaf width in bytes.
    pub hw: nat,
    /// Logical value width in bytes.
    pub vw: nat,
}

/// Machine bounds under which packed covering arithmetic cannot overflow.
pub open spec fn packed_wf(p: PackedRep) -> bool {
    &&& vector_wf(p.tuple)
    &&& 1 <= p.hw <= usize::MAX / 8
    &&& 1 <= p.vw <= usize::MAX / 8
    &&& (p.len + 1) * p.vw + p.hw + 1 <= usize::MAX / 8
    &&& match p.max_len {
        Some(m) => p.len <= m && (m + 1) * p.vw + p.hw + 1 <= usize::MAX / 8,
        None => true,
    }
}

/// `PackedVector` with owned root.
pub type OwnedPackedVector = PackedVector<Owned>;

/// `PackedVector` with dangling root.
pub type DanglingPackedVector = PackedVector<Dangling>;

/// Packed merkle vector: values of `value_width` bytes share host leaves
/// of `host_width` bytes.
pub struct PackedVector<R: RootStatus> {
    tuple: Vector<R>,
    len: usize,
    max_len: Option<usize>,
    host_width: usize,
    value_width: usize,
}

impl<R: RootStatus> View for PackedVector<R> {
    type V = PackedRep;

    closed spec fn view(&self) -> PackedRep {
        PackedRep {
            tuple: self.tuple@,
            len: self.len as nat,
            max_len: match self.max_len {
                Some(m) => Some(m as nat),
                None => None,
            },
            hw: self.host_width as nat,
            vw: self.value_width as nat,
        }
    }
}

/// The host leaves and byte ranges covered by one value.
#[verifier::loop_isolation(false)]
pub fn coverings(value_index: usize, host_width: usize, value_width: usize) -> (r: (
    usize,
    Vec<(usize, usize)>,
))
    requires
        host_width >= 1,
        value_width >= 1,
        (value_index + 1) * value_width + host_width <= usize::MAX,
    ensures
        r.0 == spec_coverings(value_index as nat, host_width as nat, value_width as nat).0,
        r.1@.map_values(|p: (usize, usize)| (p.0 as nat, p.1 as nat)) == spec_coverings(
            value_index as nat,
            host_width as nat,
            value_width as nat,
        ).1,
{
    let ghost gidx = value_index as nat;
    let ghost ghw = host_width as nat;
    let ghost gvw = value_width as nat;
    proof {
        vstd::arithmetic::mul::lemma_mul_is_commutative(gvw as int, gidx as int);
        vstd::arithmetic::mul::lemma_mul_is_distributive_add_other_way(
            gvw as int,
            gidx as int,
            1,
        );
        assert((gidx + 1) * gvw == gidx * gvw + gvw);
        assert(gidx * gvw >= 0);
    }
    let bytes = value_width * value_index;
    let host_index = bytes / host_width;
    let offset = bytes % host_width;
    proof {
        vstd::arithmetic::div_mod::lemma_mod_bound(bytes as int, host_width as int);
    }
    let first_end = if offset + value_width < host_width {
        offset + value_width
    } else {
        host_width
    };
    let mut ranges: Vec<(usize, usize)> = Vec::new();
    ranges.push((offset, first_end));
    let mut covered: usize = first_end - offset;
    proof {
        assert(ranges@.map_values(|p: (usize, usize)| (p.0 as nat, p.1 as nat)) =~= seq![
            (offset as nat, first_end as nat),
        ]);
        let rest0 = (gvw - (first_end - offset)) as nat;
        crate::packed::lemma_rest_ranges(rest0, ghw);
        assert(rest_ranges(rest0, ghw).skip(0) =~= rest_ranges(rest0, ghw));
        assert(rest_ranges(rest0, ghw).take(0) =~= Seq::<(nat, nat)>::empty());
        assert(seq![(offset as nat, first_end as nat)] + rest_ranges(rest0, ghw).take(0) =~= seq![
            (offset as nat, first_end as nat),
        ]);
    }
    while covered < value_width
        invariant
            host_width >= 1,
            covered <= value_width,
            value_width + host_width <= usize::MAX,
            ranges@.map_values(|p: (usize, usize)| (p.0 as nat, p.1 as nat)) =~= seq![
                (offset as nat, first_end as nat),
            ] + rest_ranges((gvw - (first_end - offset)) as nat, ghw).take(
                ranges@.len() - 1,
            ),
            ranges@.len() >= 1,
            ranges_width(
                rest_ranges((gvw - (first_end - offset)) as nat, ghw).skip(ranges@.len() - 1),
            ) == value_width - covered,
            rest_ranges((gvw - (first_end - offset)) as nat, ghw).len() >= ranges@.len() - 1,
        decreases value_width - covered,
    {
        let rest = value_width - covered;
        let step = if rest < host_width {
            rest
        } else {
            host_width
        };
        proof {
            let all = rest_ranges((gvw - (first_end - offset)) as nat, ghw);
            let k = ranges@.len() - 1;
            let tail = all.skip(k);
            crate::packed::lemma_rest_ranges((gvw - (first_end - offset)) as nat, ghw);
            assert(ranges_width(tail) == rest);
            assert(tail.len() > 0) by {
                if tail.len() == 0 {
                    assert(ranges_width(tail) == 0);
                }
            }
            assert(tail[0] == all[k as int]);
            lemma_rest_ranges_index((gvw - (first_end - offset)) as nat, ghw, k as int);
            assert(all[k as int] == (0nat, (if ranges_width(tail) < ghw {
                ranges_width(tail)
            } else {
                ghw
            })));
            assert(tail.drop_first() =~= all.skip(k + 1));
            assert(all.take(k).push(all[k as int]) =~= all.take(k + 1));
            assert(ranges@.push((0usize, step)).map_values(
                |p: (usize, usize)| (p.0 as nat, p.1 as nat),
            ) =~= ranges@.map_values(|p: (usize, usize)| (p.0 as nat, p.1 as nat)).push(
                (0nat, step as nat),
            ));
        }
        ranges.push((0, step));
        covered = covered + step;
    }
    proof {
        let all = rest_ranges((gvw - (first_end - offset)) as nat, ghw);
        let k = ranges@.len() - 1;
        crate::packed::lemma_rest_ranges((gvw - (first_end - offset)) as nat, ghw);
        assert(ranges_width(all.skip(k)) == 0);
        lemma_ranges_width_zero(all.skip(k));
        assert(all.skip(k).len() == 0);
        assert(all.take(k) =~= all);
        assert(ranges@.map_values(|p: (usize, usize)| (p.0 as nat, p.1 as nat)) =~= seq![
            (offset as nat, first_end as nat),
        ] + all);
    }
    (host_index, ranges)
}

/// Append `bytes[start..end]` to `out`.
#[verifier::loop_isolation(false)]
fn append_range(out: &mut Vec<u8>, bytes: &Vec<u8>, start: usize, end: usize)
    requires
        start <= end <= bytes@.len(),
        old(out)@.len() + (end - start) <= usize::MAX,
    ensures
        final(out)@ == old(out)@ + bytes@.subrange(start as int, end as int),
{
    let mut j: usize = start;
    while j < end
        invariant
            start <= j <= end,
            out@ =~= old(out)@ + bytes@.subrange(start as int, j as int),
        decreases end - j,
    {
        proof {
            assert(bytes@.subrange(start as int, j as int + 1) =~= bytes@.subrange(
                start as int,
                j as int,
            ).push(bytes@[j as int]));
        }
        out.push(bytes[j]);
        j = j + 1;
    }
    proof {
        assert(out@ =~= old(out)@ + bytes@.subrange(start as int, end as int));
    }
}

/// Replace `bytes[start..end]` with `value[voff..voff + (end - start)]`.
#[verifier::loop_isolation(false)]
fn splice(bytes: &Vec<u8>, start: usize, end: usize, value: &Vec<u8>, voff: usize) -> (r: Vec<
    u8,
>)
    requires
        start <= end <= bytes@.len(),
        voff + (end - start) <= value@.len(),
    ensures
        r@ == bytes@.take(start as int) + value@.subrange(
            voff as int,
            voff + (end - start),
        ) + bytes@.skip(end as int),
{
    let vlen = value.len();
    let blen = bytes.len();
    let mut out: Vec<u8> = Vec::new();
    append_range(&mut out, bytes, 0, start);
    proof {
        assert(bytes@.subrange(0, start as int) =~= bytes@.take(start as int));
    }
    append_range(&mut out, value, voff, voff + (end - start));
    append_range(&mut out, bytes, end, bytes.len());
    proof {
        assert(bytes@.subrange(end as int, bytes@.len() as int) =~= bytes@.skip(end as int));
        assert(out@ =~= bytes@.take(start as int) + value@.subrange(
            voff as int,
            voff + (end - start),
        ) + bytes@.skip(end as int));
    }
    out
}

/// The view pairs of a vector of ranges.
pub(crate) open spec fn ranges_rep(rs: Seq<(usize, usize)>) -> Seq<(nat, nat)> {
    rs.map_values(|p: (usize, usize)| (p.0 as nat, p.1 as nat))
}

impl<R: RootStatus> PackedVector<R> {
    /// Get value at index.
    #[verifier::rlimit(50)]
    #[verifier::loop_isolation(false)]
    pub fn get<DB: WriteBackend>(&self, db: &mut DB, index: usize) -> (r: Result<
        Vec<u8>,
        Error<DB::Error>,
    >)
        requires
            old(db).wf(),
            packed_wf(self@),
            (index + 1) * self@.vw + self@.hw + 1 <= usize::MAX / 8,
        ensures
            final(db).wf(),
            same_config(final(db), old(db)),
            final(db).store() == old(db).store(),
            ({
                let cov = spec_coverings(index as nat, self@.hw, self@.vw);
                let got = spec_packed_read(old(db).store(), self@.tuple, cov.0, cov.1);
                match r {
                    Ok(bytes) => got == Some(bytes@),
                    Err(_) => got is None,
                }
            }),
    {
        let ghost cov = spec_coverings(index as nat, self@.hw, self@.vw);
        proof {
            lemma_coverings(index as nat, self@.hw, self@.vw);
        }
        let (base, ranges) = coverings(index, self.host_width, self.value_width);
        let n = ranges.len();
        let mut ret: Vec<u8> = Vec::new();
        let mut i: usize = 0;
        proof {
            assert(cov.1.skip(0) =~= cov.1);
            assert(ranges@.len() == cov.1.len());
            vstd::arithmetic::mul::lemma_mul_is_distributive_add_other_way(
                self@.vw as int,
                index as int,
                1,
            );
            assert(cov.0 + cov.1.len() <= (index + 1) * self@.vw + 1);
        }
        while i < n
            invariant
                i <= n,
                db.wf(),
                same_config(db, old(db)),
                db.store() == old(db).store(),
                ret@.len() + ranges_width(cov.1.skip(i as int)) == self@.vw,
                spec_packed_read(old(db).store(), self@.tuple, cov.0, cov.1) == (match
                    spec_packed_read(
                    old(db).store(),
                    self@.tuple,
                    (cov.0 + i) as nat,
                    cov.1.skip(i as int),
                ) {
                    Some(tail) => Some(ret@ + tail),
                    None => None::<Seq<u8>>,
                }),
            decreases n - i,
        {
            let ghost rg = cov.1[i as int];
            proof {
                assert(cov.1.skip(i as int)[0] == rg);
                assert(cov.1.skip(i as int).drop_first() =~= cov.1.skip(i as int + 1));
                assert(ranges_width(cov.1.skip(i as int)) == rg.1 - rg.0 + ranges_width(
                    cov.1.skip(i as int + 1),
                ));
            }
            let start = ranges[i].0;
            let end = ranges[i].1;
            let bytes = match self.tuple.get(db, base + i) {
                Ok(bytes) => bytes,
                Err(e) => {
                    return Err(e);
                },
            };
            if end > bytes.len() || start > end {
                return Err(Error::CorruptedDatabase);
            }
            append_range(&mut ret, &bytes, start, end);
            i = i + 1;
        }
        proof {
            assert(cov.1.skip(n as int) =~= Seq::<(nat, nat)>::empty());
            assert(ret@ + Seq::<u8>::empty() =~= ret@);
        }
        Ok(ret)
    }

    /// Set value at index.
    #[verifier::rlimit(50)]
    #[verifier::loop_isolation(false)]
    pub fn set<DB: WriteBackend>(&mut self, db: &mut DB, index: usize, value: Vec<u8>) -> (r:
        Result<(), Error<DB::Error>>)
        requires
            old(db).wf(),
            packed_wf(old(self)@),
            value@.len() == old(self)@.vw,
            (index + 1) * old(self)@.vw + old(self)@.hw + 1 <= usize::MAX / 8,
        ensures
            final(db).wf(),
            same_config(final(db), old(db)),
            final(self)@.len == old(self)@.len,
            final(self)@.max_len == old(self)@.max_len,
            final(self)@.hw == old(self)@.hw,
            final(self)@.vw == old(self)@.vw,
            packed_wf(final(self)@),
            ({
                let cov = spec_coverings(index as nat, old(self)@.hw, old(self)@.vw);
                let o = spec_packed_write(
                    old(db).store(),
                    old(self)@.tuple,
                    cov.0,
                    cov.1,
                    0,
                    value@,
                    !R::dangling(),
                    db_config(old(db)),
                );
                final(db).store() == o.0 && final(self)@.tuple == o.1 && (r is Ok) == o.2
            }),
    {
        let ghost cov = spec_coverings(index as nat, old(self)@.hw, old(self)@.vw);
        proof {
            lemma_coverings(index as nat, old(self)@.hw, old(self)@.vw);
        }
        let (base, ranges) = coverings(index, self.host_width, self.value_width);
        let n = ranges.len();
        let mut value_offset: usize = 0;
        let mut i: usize = 0;
        proof {
            assert(cov.1.skip(0) =~= cov.1);
            assert(ranges@.len() == cov.1.len());
            vstd::arithmetic::mul::lemma_mul_is_distributive_add_other_way(
                old(self)@.vw as int,
                index as int,
                1,
            );
            assert(cov.0 + cov.1.len() <= (index + 1) * old(self)@.vw + 1);
        }
        while i < n
            invariant
                i <= n,
                db.wf(),
                same_config(db, old(db)),
                self.host_width == old(self).host_width,
                self.value_width == old(self).value_width,
                self.len == old(self).len,
                self.max_len == old(self).max_len,
                vector_wf(self@.tuple),
                self@.tuple.len == old(self)@.tuple.len,
                self@.tuple.max_len == old(self)@.tuple.max_len,
                value_offset + ranges_width(cov.1.skip(i as int)) == old(self)@.vw,
                spec_packed_write(
                    old(db).store(),
                    old(self)@.tuple,
                    cov.0,
                    cov.1,
                    0,
                    value@,
                    !R::dangling(),
                    db_config(old(db)),
                ) == spec_packed_write(
                    db.store(),
                    self@.tuple,
                    (cov.0 + i) as nat,
                    cov.1.skip(i as int),
                    value_offset as nat,
                    value@,
                    !R::dangling(),
                    db_config(old(db)),
                ),
            decreases n - i,
        {
            let ghost rg = cov.1[i as int];
            proof {
                assert(cov.1.skip(i as int)[0] == rg);
                assert(cov.1.skip(i as int).drop_first() =~= cov.1.skip(i as int + 1));
                assert(ranges_width(cov.1.skip(i as int)) == rg.1 - rg.0 + ranges_width(
                    cov.1.skip(i as int + 1),
                ));
            }
            let start = ranges[i].0;
            let end = ranges[i].1;
            let bytes = match self.tuple.get(db, base + i) {
                Ok(bytes) => bytes,
                Err(e) => {
                    return Err(e);
                },
            };
            if end > bytes.len() || start > end {
                return Err(Error::CorruptedDatabase);
            }
            let patched = splice(&bytes, start, end, &value, value_offset);
            match self.tuple.set(db, base + i, patched) {
                Ok(_) => {},
                Err(e) => {
                    return Err(e);
                },
            }
            value_offset = value_offset + (end - start);
            i = i + 1;
        }
        proof {
            assert(cov.1.skip(n as int) =~= Seq::<(nat, nat)>::empty());
        }
        Ok(())
    }

    /// Push a new value to the packed vector: grow the host vector by
    /// enough zero leaves, then write the value's ranges.
    #[verifier::rlimit(100)]
    #[verifier::spinoff_prover]
    #[verifier::loop_isolation(false)]
    pub fn push<DB: WriteBackend>(&mut self, db: &mut DB, value: Vec<u8>) -> (r: Result<
        (),
        Error<DB::Error>,
    >)
        requires
            old(db).wf(),
            packed_wf(old(self)@),
            value@.len() == old(self)@.vw,
        ensures
            final(db).wf(),
            same_config(final(db), old(db)),
            final(self)@.max_len == old(self)@.max_len,
            final(self)@.hw == old(self)@.hw,
            final(self)@.vw == old(self)@.vw,
            ({
                let o = spec_packed_push(
                    old(db).store(),
                    old(self)@,
                    value@,
                    !R::dangling(),
                    db_config(old(db)),
                );
                final(db).store() == o.0 && final(self)@ == o.1 && (r is Ok) == o.2
            }),
    {
        let index = self.len;
        let ghost cov = spec_coverings(index as nat, self@.hw, self@.vw);
        proof {
            lemma_coverings(index as nat, self@.hw, self@.vw);
            vstd::arithmetic::mul::lemma_mul_is_distributive_add_other_way(
                self@.vw as int,
                index as int,
                1,
            );
        }
        let (base, ranges) = coverings(index, self.host_width, self.value_width);
        let target = base + ranges.len();
        proof {
            assert(ranges@.len() == cov.1.len());
            assert(target == cov.0 + cov.1.len());
            assert(target <= usize::MAX / 8);
        }
        while self.tuple.len() < target
            invariant
                db.wf(),
                same_config(db, old(db)),
                self.host_width == old(self).host_width,
                self.value_width == old(self).value_width,
                self.len == old(self).len,
                self.max_len == old(self).max_len,
                vector_wf(self@.tuple),
                self@.tuple.max_len == old(self)@.tuple.max_len,
                spec_push_zeros(
                    old(db).store(),
                    old(self)@.tuple,
                    (if old(self)@.tuple.len < target {
                        (target - old(self)@.tuple.len) as nat
                    } else {
                        0
                    }),
                    old(self)@.hw,
                    !R::dangling(),
                    db_config(old(db)),
                ) == spec_push_zeros(
                    db.store(),
                    self@.tuple,
                    (if self@.tuple.len < target {
                        (target - self@.tuple.len) as nat
                    } else {
                        0
                    }),
                    old(self)@.hw,
                    !R::dangling(),
                    db_config(old(db)),
                ),
            decreases target - self@.tuple.len,
        {
            let mut zeros: Vec<u8> = Vec::new();
            let mut z: usize = 0;
            while z < self.host_width
                invariant
                    z <= self.host_width,
                    zeros@.len() == z,
                    forall|q: int| 0 <= q < z ==> zeros@[q] == 0u8,
                decreases self.host_width - z,
            {
                zeros.push(0u8);
                z = z + 1;
            }
            proof {
                assert(zeros@ =~= zero_bytes(self@.hw));
            }
            match self.tuple.push(db, zeros) {
                Ok(_) => {},
                Err(e) => {
                    return Err(e);
                },
            }
        }
        let ghost smid = db.store();
        let ghost tmid = self@.tuple;
        proof {
            let need0: nat = if old(self)@.tuple.len < target {
                (target - old(self)@.tuple.len) as nat
            } else {
                0
            };
            assert(spec_push_zeros(
                old(db).store(),
                old(self)@.tuple,
                need0,
                old(self)@.hw,
                !R::dangling(),
                db_config(old(db)),
            ) == (smid, tmid, true));
            vstd::arithmetic::mul::lemma_mul_inequality(
                1,
                self@.vw as int,
                index as int + 1,
            );
            vstd::arithmetic::mul::lemma_mul_is_commutative(self@.vw as int, index as int + 1);
            vstd::arithmetic::mul::lemma_mul_basics(index as int + 1);
        }
        let res = self.set(db, index, value);
        proof {
            let cv = spec_coverings(index as nat, old(self)@.hw, old(self)@.vw);
            lemma_packed_write_meta(
                smid,
                tmid,
                cv.0,
                cv.1,
                0,
                value@,
                !R::dangling(),
                db_config(old(db)),
            );
        }
        match res {
            Ok(_) => {},
            Err(e) => {
                return Err(e);
            },
        }
        self.len = index + 1;
        Ok(())
    }

    /// Drain every host leaf; used when the last logical value leaves.
    #[verifier::rlimit(50)]
    #[verifier::loop_isolation(false)]
    fn drain_hosts<DB: WriteBackend>(&mut self, db: &mut DB) -> (r: Result<(), Error<DB::Error>>)
        requires
            old(db).wf(),
            packed_wf(old(self)@),
        ensures
            final(db).wf(),
            same_config(final(db), old(db)),
            final(self)@.len == old(self)@.len,
            final(self)@.max_len == old(self)@.max_len,
            final(self)@.hw == old(self)@.hw,
            final(self)@.vw == old(self)@.vw,
            vector_wf(final(self)@.tuple),
            final(self)@.tuple.max_len == old(self)@.tuple.max_len,
            ({
                let d = spec_pop_hosts(
                    old(db).store(),
                    old(self)@.tuple,
                    old(self)@.tuple.len,
                    !R::dangling(),
                    db_config(old(db)),
                );
                final(db).store() == d.0 && final(self)@.tuple == d.1 && (r is Ok) == d.2
            }),
    {
        while self.tuple.len() > 0
            invariant
                db.wf(),
                same_config(db, old(db)),
                self.host_width == old(self).host_width,
                self.value_width == old(self).value_width,
                self.len == old(self).len,
                self.max_len == old(self).max_len,
                vector_wf(self@.tuple),
                self@.tuple.max_len == old(self)@.tuple.max_len,
                spec_pop_hosts(
                    old(db).store(),
                    old(self)@.tuple,
                    old(self)@.tuple.len,
                    !R::dangling(),
                    db_config(old(db)),
                ) == spec_pop_hosts(
                    db.store(),
                    self@.tuple,
                    self@.tuple.len,
                    !R::dangling(),
                    db_config(old(db)),
                ),
            decreases self@.tuple.len,
        {
            match self.tuple.pop(db) {
                Ok(_) => {},
                Err(e) => {
                    return Err(e);
                },
            }
        }
        Ok(())
    }

    /// Shrink the host vector to what the values up to `last_index` cover,
    /// then rewrite the value at `last_index` over a freshly zeroed host
    /// leaf.
    #[verifier::rlimit(100)]
    #[verifier::spinoff_prover]
    #[verifier::loop_isolation(false)]
    fn shrink_tail<DB: WriteBackend>(&mut self, db: &mut DB, last_index: usize) -> (r: Result<
        (),
        Error<DB::Error>,
    >)
        requires
            old(db).wf(),
            packed_wf(old(self)@),
            last_index < old(self)@.len,
        ensures
            final(db).wf(),
            same_config(final(db), old(db)),
            final(self)@.len == old(self)@.len,
            final(self)@.max_len == old(self)@.max_len,
            final(self)@.hw == old(self)@.hw,
            final(self)@.vw == old(self)@.vw,
            vector_wf(final(self)@.tuple),
            final(self)@.tuple.max_len == old(self)@.tuple.max_len,
            ({
                let c = db_config(old(db));
                let owned = !R::dangling();
                let cov2 = spec_coverings(last_index as nat, old(self)@.hw, old(self)@.vw);
                let target2 = cov2.0 + cov2.1.len();
                let need: nat = if old(self)@.tuple.len > target2 {
                    (old(self)@.tuple.len - target2) as nat
                } else {
                    0
                };
                let d = spec_pop_hosts(old(db).store(), old(self)@.tuple, need, owned, c);
                if !d.2 {
                    final(db).store() == d.0 && final(self)@.tuple == d.1 && r is Err
                } else {
                    match spec_packed_read(d.0, d.1, cov2.0, cov2.1) {
                        None => final(db).store() == d.0 && final(self)@.tuple == d.1 && r
                            is Err,
                        Some(last) => {
                            let p1 = spec_vector_pop(d.0, d.1, owned, c);
                            if !p1.2 {
                                final(db).store() == p1.0 && final(self)@.tuple == p1.1 && r
                                    is Err
                            } else {
                                let p2 = spec_vector_push(
                                    p1.0,
                                    p1.1,
                                    zero_bytes(old(self)@.hw),
                                    owned,
                                    c,
                                );
                                if !p2.2 {
                                    final(db).store() == p2.0 && final(self)@.tuple == p2.1
                                        && r is Err
                                } else {
                                    let w = spec_packed_write(
                                        p2.0,
                                        p2.1,
                                        cov2.0,
                                        cov2.1,
                                        0,
                                        last,
                                        owned,
                                        c,
                                    );
                                    final(db).store() == w.0 && final(self)@.tuple == w.1 && (
                                    r is Ok) == w.2
                                }
                            }
                        },
                    }
                }
            }),
    {
        let ghost cov2 = spec_coverings(last_index as nat, self@.hw, self@.vw);
        proof {
            lemma_coverings(last_index as nat, self@.hw, self@.vw);
            vstd::arithmetic::mul::lemma_mul_is_distributive_add_other_way(
                self@.vw as int,
                last_index as int,
                1,
            );
            vstd::arithmetic::mul::lemma_mul_inequality(
                last_index as int + 1,
                self@.len as int + 1,
                self@.vw as int,
            );
        }
        let (base2, ranges2) = coverings(last_index, self.host_width, self.value_width);
        let target2 = base2 + ranges2.len();
        proof {
            assert(ranges2@.len() == cov2.1.len());
            assert(target2 == cov2.0 + cov2.1.len());
        }
        while self.tuple.len() > target2
            invariant
                db.wf(),
                same_config(db, old(db)),
                self.host_width == old(self).host_width,
                self.value_width == old(self).value_width,
                self.len == old(self).len,
                self.max_len == old(self).max_len,
                vector_wf(self@.tuple),
                self@.tuple.max_len == old(self)@.tuple.max_len,
                spec_pop_hosts(
                    old(db).store(),
                    old(self)@.tuple,
                    (if old(self)@.tuple.len > target2 {
                        (old(self)@.tuple.len - target2) as nat
                    } else {
                        0
                    }),
                    !R::dangling(),
                    db_config(old(db)),
                ) == spec_pop_hosts(
                    db.store(),
                    self@.tuple,
                    (if self@.tuple.len > target2 {
                        (self@.tuple.len - target2) as nat
                    } else {
                        0
                    }),
                    !R::dangling(),
                    db_config(old(db)),
                ),
            decreases self@.tuple.len,
        {
            match self.tuple.pop(db) {
                Ok(_) => {},
                Err(e) => {
                    return Err(e);
                },
            }
        }
        let last_value = match self.get(db, last_index) {
            Ok(bytes) => bytes,
            Err(e) => {
                return Err(e);
            },
        };
        proof {
            lemma_packed_read_len(db.store(), self@.tuple, cov2.0, cov2.1);
        }
        match self.tuple.pop(db) {
            Ok(_) => {},
            Err(e) => {
                return Err(e);
            },
        }
        let mut zeros: Vec<u8> = Vec::new();
        let mut z: usize = 0;
        while z < self.host_width
            invariant
                z <= self.host_width,
                zeros@.len() == z,
                forall|q: int| 0 <= q < z ==> zeros@[q] == 0u8,
            decreases self.host_width - z,
        {
            zeros.push(0u8);
            z = z + 1;
        }
        proof {
            assert(zeros@ =~= zero_bytes(self@.hw));
        }
        match self.tuple.push(db, zeros) {
            Ok(_) => {},
            Err(e) => {
                return Err(e);
            },
        }
        let ghost spre = db.store();
        let ghost tpre = self@.tuple;
        let res = self.set(db, last_index, last_value);
        proof {
            let cv = spec_coverings(last_index as nat, old(self)@.hw, old(self)@.vw);
            lemma_packed_write_meta(
                spre,
                tpre,
                cv.0,
                cv.1,
                0,
                last_value@,
                !R::dangling(),
                db_config(old(db)),
            );
        }
        match res {
            Ok(_) => Ok(()),
            Err(e) => Err(e),
        }
    }

    /// Pop a value from the packed vector: read the last value, shrink the
    /// host vector to what the remaining values cover, and rewrite the
    /// final value over a freshly zeroed host leaf.
    #[verifier::rlimit(100)]
    #[verifier::spinoff_prover]
    pub fn pop<DB: WriteBackend>(&mut self, db: &mut DB) -> (r: Result<
        Option<Vec<u8>>,
        Error<DB::Error>,
    >)
        requires
            old(db).wf(),
            packed_wf(old(self)@),
        ensures
            final(db).wf(),
            same_config(final(db), old(db)),
            final(self)@.max_len == old(self)@.max_len,
            final(self)@.hw == old(self)@.hw,
            final(self)@.vw == old(self)@.vw,
            packed_wf(final(self)@),
            ({
                let o = spec_packed_pop(
                    old(db).store(),
                    old(self)@,
                    !R::dangling(),
                    db_config(old(db)),
                );
                final(db).store() == o.0 && final(self)@ == o.1 && match r {
                    Ok(popped) => o.2 && match popped {
                        Some(bytes) => o.3 == Some(bytes@),
                        None => o.3 is None && old(self)@.len == 0,
                    },
                    Err(_) => !o.2,
                }
            }),
    {
        if self.len == 0 {
            return Ok(None);
        }
        let index = self.len - 1;
        proof {
            vstd::arithmetic::mul::lemma_mul_inequality(
                index as int + 1,
                self@.len as int + 1,
                self@.vw as int,
            );
        }
        let ret = match self.get(db, index) {
            Ok(bytes) => bytes,
            Err(e) => {
                return Err(e);
            },
        };
        if self.len == 1 {
            match self.drain_hosts(db) {
                Ok(_) => {},
                Err(e) => {
                    return Err(e);
                },
            }
            self.len = 0;
            return Ok(Some(ret));
        }
        let last_index = index - 1;
        match self.shrink_tail(db, last_index) {
            Ok(_) => {},
            Err(e) => {
                return Err(e);
            },
        }
        self.len = index;
        Ok(Some(ret))
    }


    /// Get the length of the packed vector.
    pub fn len(&self) -> (r: usize)
        ensures
            r == self@.len,
    {
        self.len
    }

    /// Root of the packed vector.
    pub fn root(&self) -> (r: Value)
        ensures
            r@ == self@.tuple.root,
    {
        self.tuple.root()
    }

    /// Drop the packed vector.
    pub fn drop<DB: WriteBackend>(self, db: &mut DB) -> (r: Result<(), Error<DB::Error>>)
        requires
            old(db).wf(),
        ensures
            final(db).wf(),
            same_config(final(db), old(db)),
            ({
                let o = spec_tree_drop(
                    old(db).store(),
                    self@.tuple.root,
                    !R::dangling(),
                    old(db).is_noop(),
                );
                final(db).store() == o.0 && (r is Ok) == o.1
            }),
    {
        Tree::<DB>::drop(self.tuple, db)
    }

    /// Create a packed vector from a raw merkle tree.
    pub fn from_raw(raw: Raw<R>, len: usize, max_len: Option<usize>, host_width: usize, value_width: usize) -> (r:
        Self)
        requires
            1 <= host_width <= usize::MAX / 8,
            1 <= value_width <= usize::MAX / 8,
            (len + 1) * value_width + host_width + 1 <= usize::MAX / 8,
            match max_len {
                Some(m) => 1 <= m && len <= m && (m + 1) * value_width + host_width + 1
                    <= usize::MAX / 8,
                None => true,
            },
        ensures
            packed_wf(r@),
            r@.tuple.root == raw@,
            r@.len == len,
            r@.hw == host_width,
            r@.vw == value_width,
            r@.max_len == match max_len {
                Some(m) => Some(m as nat),
                None => None::<nat>,
            },
            r@.tuple.len == spec_host_len(len as nat, host_width as nat, value_width as nat),
            r@.tuple.max_len == match max_len {
                Some(m) => Some(
                    spec_host_len(m as nat, host_width as nat, value_width as nat),
                ),
                None => None::<nat>,
            },
    {
        proof {
            lemma_host_len_bound(len as nat, host_width as nat, value_width as nat);
            match max_len {
                Some(m) => {
                    lemma_host_len_bound(m as nat, host_width as nat, value_width as nat);
                    lemma_host_len_mono(
                        len as nat,
                        m as nat,
                        host_width as nat,
                        value_width as nat,
                    );
                },
                None => {},
            }
        }
        let host_len_now = crate::utils::host_len(len, host_width, value_width);
        let host_max = match max_len {
            Some(m) => Some(crate::utils::host_len(m, host_width, value_width)),
            None => None,
        };
        PackedVector {
            tuple: Vector::from_raw(raw, host_len_now, host_max),
            len,
            max_len,
            host_width,
            value_width,
        }
    }
}

impl PackedVector<Owned> {
    /// Create a new packed vector over its all-empty host tree.
    pub fn create<DB: WriteBackend>(
        db: &mut DB,
        value_len: usize,
        value_max_len: Option<usize>,
        host_width: usize,
        value_width: usize,
    ) -> (r: Result<Self, Error<DB::Error>>)
        requires
            old(db).wf(),
            1 <= host_width <= usize::MAX / 8,
            1 <= value_width <= usize::MAX / 8,
            (value_len + 1) * value_width + host_width + 1 <= usize::MAX / 8,
            match value_max_len {
                Some(m) => (m + 1) * value_width + host_width + 1 <= usize::MAX / 8,
                None => true,
            },
        ensures
            final(db).wf(),
            same_config(final(db), old(db)),
            ({
                let bad = match value_max_len {
                    Some(m) => m < value_len || m == 0,
                    None => false,
                };
                if bad {
                    r == Err::<Self, Error<DB::Error>>(Error::InvalidParameter) && final(db).store() == old(db).store()
                } else {
                    let hl = spec_host_len(
                        value_len as nat,
                        host_width as nat,
                        value_width as nat,
                    );
                    let hm = match value_max_len {
                        Some(m) => Some(
                            spec_host_len(m as nat, host_width as nat, value_width as nat),
                        ),
                        None => None::<nat>,
                    };
                    let o = crate::vector::spec_vector_create(
                        old(db).store(),
                        hl,
                        hm,
                        true,
                        db_config(old(db)),
                    );
                    final(db).store() == o.0 && match r {
                        Ok(p) => o.2 && p@.tuple == o.1 && p@.len == value_len && p@.hw
                            == host_width && p@.vw == value_width && packed_wf(p@)
                            && p@.max_len == (match value_max_len {
                            Some(m) => Some(m as nat),
                            None => None::<nat>,
                        }),
                        Err(_) => !o.2,
                    }
                }
            }),
    {
        match value_max_len {
            Some(m) => {
                if m < value_len || m == 0 {
                    return Err(Error::InvalidParameter);
                }
            },
            None => {},
        }
        proof {
            lemma_host_len_bound(value_len as nat, host_width as nat, value_width as nat);
            match value_max_len {
                Some(m) => {
                    lemma_host_len_bound(m as nat, host_width as nat, value_width as nat);
                    lemma_host_len_mono(
                        value_len as nat,
                        m as nat,
                        host_width as nat,
                        value_width as nat,
                    );
                },
                None => {},
            }
        }
        let host_len_now = crate::utils::host_len(value_len, host_width, value_width);
        let host_max = match value_max_len {
            Some(m) => Some(crate::utils::host_len(m, host_width, value_width)),
            None => None,
        };
        let tuple = match Vector::<Owned>::create(db, host_len_now, host_max) {
            Ok(t) => t,
            Err(e) => {
                return Err(e);
            },
        };
        Ok(
            PackedVector {
                tuple,
                len: value_len,
                max_len: value_max_len,
                host_width,
                value_width,
            },
        )
    }
}

impl<R: RootStatus, DB: WriteBackend> Tree<DB> for PackedVector<R> {
    type Status = R;

    open spec fn spec_root(&self) -> ValueRep {
        self@.tuple.root
    }

    open spec fn spec_drop(&self, s: StoreRep, noop: bool) -> (StoreRep, bool) {
        spec_tree_drop(s, self@.tuple.root, !R::dangling(), noop)
    }

    fn root(&self) -> (r: Value) {
        self.tuple.root()
    }

    fn drop(self, db: &mut DB) -> (r: Result<(), Error<DB::Error>>) {
        Tree::<DB>::drop(self.tuple, db)
    }
}

impl<R: RootStatus, DB: WriteBackend> Sequence<DB> for PackedVector<R> {
    open spec fn spec_len(&self) -> nat {
        self@.len
    }

    fn len(&self) -> (r: usize) {
        PackedVector::<R>::len(self)
    }
}

/// The host count grows with the value count, and a positive value count
/// needs at least one host leaf.
pub proof fn lemma_host_len_mono(l1: nat, l2: nat, hw: nat, vw: nat)
    requires
        hw >= 1,
        vw >= 1,
        l1 <= l2,
    ensures
        spec_host_len(l1, hw, vw) <= spec_host_len(l2, hw, vw),
        l2 >= 1 ==> spec_host_len(l2, hw, vw) >= 1,
{
    let b1 = l1 * vw;
    let b2 = l2 * vw;
    vstd::arithmetic::mul::lemma_mul_inequality(l1 as int, l2 as int, vw as int);
    vstd::arithmetic::div_mod::lemma_div_is_ordered(b1 as int, b2 as int, hw as int);
    vstd::arithmetic::div_mod::lemma_fundamental_div_mod(b1 as int, hw as int);
    vstd::arithmetic::div_mod::lemma_fundamental_div_mod(b2 as int, hw as int);
    vstd::arithmetic::div_mod::lemma_mod_bound(b1 as int, hw as int);
    vstd::arithmetic::div_mod::lemma_mod_bound(b2 as int, hw as int);
    if l2 >= 1 {
        vstd::arithmetic::mul::lemma_mul_inequality(1, l2 as int, vw as int);
        assert(b2 >= vw) by {
            vstd::arithmetic::mul::lemma_mul_is_commutative(l2 as int, vw as int);
        }
        if b2 % hw == 0 && b2 / hw == 0 {
            assert(b2 == hw * (b2 / hw) + b2 % hw);
            vstd::arithmetic::mul::lemma_mul_basics(hw as int);
            assert(hw * (b2 / hw) == 0);
            assert(b2 == 0);
        }
    }
}

/// The host count of a length within machine bounds stays within machine
/// bounds, and holds the byte count.
pub proof fn lemma_host_len_bound(len: nat, hw: nat, vw: nat)
    requires
        hw >= 1,
        vw >= 1,
        (len + 1) * vw + hw + 1 <= usize::MAX / 8,
    ensures
        spec_host_len(len, hw, vw) <= usize::MAX / 8,
        len * vw <= usize::MAX / 8,
{
    let bytes = len * vw;
    vstd::arithmetic::mul::lemma_mul_is_distributive_add_other_way(vw as int, len as int, 1);
    assert((len + 1) * vw == len * vw + vw);
    vstd::arithmetic::div_mod::lemma_div_is_ordered_by_denominator(bytes as int, 1, hw as int);
    vstd::arithmetic::div_mod::lemma_div_basics(bytes as int);
    vstd::arithmetic::div_mod::lemma_fundamental_div_mod(bytes as int, hw as int);
    vstd::arithmetic::mul::lemma_mul_inequality(1, vw as int, len as int);
    vstd::arithmetic::mul::lemma_mul_is_commutative(vw as int, len as int);
    assert(len * 1 == len) by {
        vstd::arithmetic::mul::lemma_mul_basics(len as int);
    }
    if bytes % hw == 0 {
        assert(bytes == hw * (bytes / hw));
        vstd::arithmetic::mul::lemma_mul_is_commutative(hw as int, (bytes / hw) as int);
        vstd::arithmetic::mul::lemma_mul_inequality(1, vw as int, len as int);
    } else {
        vstd::arithmetic::mul::lemma_mul_is_distributive_add_other_way(
            hw as int,
            (bytes / hw) as int,
            1,
        );
        assert((bytes / hw + 1) * hw == (bytes / hw) * hw + hw);
        vstd::arithmetic::mul::lemma_mul_is_commutative(hw as int, (bytes / hw) as int);
        vstd::arithmetic::div_mod::lemma_mod_bound(bytes as int, hw as int);
    }
}

/// A range sequence of zero total width is empty.
proof fn lemma_ranges_width_zero(ranges: Seq<(nat, nat)>)
    requires
        ranges_width(ranges) == 0,
        forall|i: int| 0 <= i < ranges.len() ==> (#[trigger] ranges[i]).0 < ranges[i].1,
    ensures
        ranges.len() == 0,
{
    if ranges.len() > 0 {
        assert(ranges[0].0 < ranges[0].1);
    }
}

/// The ranges of the tail each step down by the host width.
proof fn lemma_rest_ranges_index(rest: nat, hw: nat, i: int)
    requires
        hw >= 1,
        0 <= i < rest_ranges(rest, hw).len(),
    ensures
        rest_ranges(rest, hw)[i] == (
            0nat,
            (if ranges_width(rest_ranges(rest, hw).skip(i)) < hw {
                ranges_width(rest_ranges(rest, hw).skip(i))
            } else {
                hw
            }),
        ),
        ranges_width(rest_ranges(rest, hw).skip(i)) > 0,
    decreases rest,
{
    let all = rest_ranges(rest, hw);
    let step = if rest < hw {
        rest
    } else {
        hw
    };
    lemma_rest_ranges(rest, hw);
    if i == 0 {
        assert(all.skip(0) =~= all);
        assert(ranges_width(all) == rest);
    } else {
        lemma_rest_ranges_index((rest - step) as nat, hw, i - 1);
        assert(all.drop_first() =~= rest_ranges((rest - step) as nat, hw));
        assert(all[i] == all.drop_first()[i - 1]);
        assert(all.skip(i) =~= all.drop_first().skip(i - 1));
    }
}

/// `PackedList` with owned root.
pub type OwnedPackedList = PackedList<Owned>;

/// `PackedList` with dangling root.
pub type DanglingPackedList = PackedList<Dangling>;

/// Packed merkle list: a packed vector with its logical length mixed into
/// the root.
pub struct PackedList<R: RootStatus>(pub(crate) crate::length::LengthMixed<R>);

impl<R: RootStatus> View for PackedList<R> {
    type V = crate::length::MixedRep;

    closed spec fn view(&self) -> crate::length::MixedRep {
        self.0@
    }
}

impl<R: RootStatus> PackedList<R> {
    /// Get value at index.
    pub fn get<DB: WriteBackend>(&self, db: &mut DB, index: usize) -> (r: Result<
        Vec<u8>,
        Error<DB::Error>,
    >)
        requires
            old(db).wf(),
            packed_wf(self@.inner),
            (index + 1) * self@.inner.vw + self@.inner.hw + 1 <= usize::MAX / 8,
        ensures
            final(db).wf(),
            same_config(final(db), old(db)),
            final(db).store() == old(db).store(),
            ({
                let cov = spec_coverings(index as nat, self@.inner.hw, self@.inner.vw);
                let got = spec_packed_read(old(db).store(), self@.inner.tuple, cov.0, cov.1);
                match r {
                    Ok(bytes) => got == Some(bytes@),
                    Err(_) => got is None,
                }
            }),
    {
        self.0.get(db, index)
    }

    /// Set value at index.
    pub fn set<DB: WriteBackend>(&mut self, db: &mut DB, index: usize, value: Vec<u8>) -> (r:
        Result<(), Error<DB::Error>>)
        requires
            old(db).wf(),
            packed_wf(old(self)@.inner),
            value@.len() == old(self)@.inner.vw,
            (index + 1) * old(self)@.inner.vw + old(self)@.inner.hw + 1 <= usize::MAX / 8,
        ensures
            final(db).wf(),
            same_config(final(db), old(db)),
            packed_wf(final(self)@.inner),
            final(self)@.inner.len == old(self)@.inner.len,
            final(self)@.inner.hw == old(self)@.inner.hw,
            final(self)@.inner.vw == old(self)@.inner.vw,
            final(self)@.inner.max_len == old(self)@.inner.max_len,
            ({
                let c = db_config(old(db));
                let cov = spec_coverings(index as nat, old(self)@.inner.hw, old(self)@.inner.vw);
                let o = spec_packed_write(
                    old(db).store(),
                    old(self)@.inner.tuple,
                    cov.0,
                    cov.1,
                    0,
                    value@,
                    false,
                    c,
                );
                if !o.2 {
                    final(db).store() == o.0 && final(self)@.inner.tuple == o.1 && final(self)@.root
                        == old(self)@.root && r is Err
                } else {
                    let m = crate::list::spec_mixed_meta(
                        o.0,
                        old(self)@.root,
                        o.1.root,
                        old(self)@.inner.len,
                        !R::dangling(),
                        c,
                    );
                    final(db).store() == m.0 && final(self)@.inner.tuple == o.1 && final(self)@.root
                        == m.1 && (r is Ok) == m.2
                }
            }),
    {
        self.0.set(db, index, value)
    }

    /// Push a new value to the list.
    pub fn push<DB: WriteBackend>(&mut self, db: &mut DB, value: Vec<u8>) -> (r: Result<
        (),
        Error<DB::Error>,
    >)
        requires
            old(db).wf(),
            packed_wf(old(self)@.inner),
            value@.len() == old(self)@.inner.vw,
        ensures
            final(db).wf(),
            same_config(final(db), old(db)),
            final(self)@.inner.hw == old(self)@.inner.hw,
            final(self)@.inner.vw == old(self)@.inner.vw,
            final(self)@.inner.max_len == old(self)@.inner.max_len,
            ({
                let c = db_config(old(db));
                let o = spec_packed_push(old(db).store(), old(self)@.inner, value@, false, c);
                if !o.2 {
                    final(db).store() == o.0 && final(self)@.inner == o.1 && final(self)@.root
                        == old(self)@.root && r is Err
                } else {
                    let m = crate::list::spec_mixed_meta(
                        o.0,
                        old(self)@.root,
                        o.1.tuple.root,
                        o.1.len,
                        !R::dangling(),
                        c,
                    );
                    final(db).store() == m.0 && final(self)@.inner == o.1 && final(self)@.root
                        == m.1 && (r is Ok) == m.2
                }
            }),
    {
        self.0.push(db, value)
    }

    /// Pop a value from the list.
    pub fn pop<DB: WriteBackend>(&mut self, db: &mut DB) -> (r: Result<
        Option<Vec<u8>>,
        Error<DB::Error>,
    >)
        requires
            old(db).wf(),
            packed_wf(old(self)@.inner),
        ensures
            final(db).wf(),
            same_config(final(db), old(db)),
            packed_wf(final(self)@.inner),
            final(self)@.inner.hw == old(self)@.inner.hw,
            final(self)@.inner.vw == old(self)@.inner.vw,
            final(self)@.inner.max_len == old(self)@.inner.max_len,
            ({
                let c = db_config(old(db));
                let o = spec_packed_pop(old(db).store(), old(self)@.inner, false, c);
                if !o.2 {
                    final(db).store() == o.0 && final(self)@.inner == o.1 && final(self)@.root
                        == old(self)@.root && r is Err
                } else if o.3 is None {
                    final(db).store() == o.0 && final(self)@ == old(self)@ && r == Ok::<
                        Option<Vec<u8>>,
                        Error<DB::Error>,
                    >(None)
                } else {
                    let m = crate::list::spec_mixed_meta(
                        o.0,
                        old(self)@.root,
                        o.1.tuple.root,
                        o.1.len,
                        !R::dangling(),
                        c,
                    );
                    final(db).store() == m.0 && final(self)@.inner == o.1 && final(self)@.root
                        == m.1 && match r {
                        Ok(popped) => m.2 && match popped {
                            Some(bytes) => o.3 == Some(bytes@),
                            None => false,
                        },
                        Err(_) => !m.2,
                    }
                }
            }),
    {
        self.0.pop(db)
    }

    /// Root of the list.
    pub fn root(&self) -> (r: Value)
        ensures
            r@ == self@.root,
    {
        self.0.root()
    }

    /// Length of the list.
    pub fn len(&self) -> (r: usize)
        ensures
            r == self@.inner.len,
    {
        self.0.len()
    }

    /// Drop the list.
    pub fn drop<DB: WriteBackend>(self, db: &mut DB) -> (r: Result<(), Error<DB::Error>>)
        requires
            old(db).wf(),
        ensures
            final(db).wf(),
            same_config(final(db), old(db)),
            ({
                let o = spec_tree_drop(
                    old(db).store(),
                    self@.root,
                    !R::dangling(),
                    old(db).is_noop(),
                );
                final(db).store() == o.0 && (r is Ok) == o.1
            }),
    {
        self.0.drop(db)
    }
}

impl PackedList<Owned> {
    /// Create a new empty packed list.
    pub fn create<DB: WriteBackend>(
        db: &mut DB,
        max_len: Option<usize>,
        host_width: usize,
        value_width: usize,
    ) -> (r: Result<Self, Error<DB::Error>>)
        requires
            old(db).wf(),
            1 <= host_width <= usize::MAX / 8,
            1 <= value_width <= usize::MAX / 8,
            1 * value_width + host_width + 1 <= usize::MAX / 8,
            match max_len {
                Some(m) => (m + 1) * value_width + host_width + 1 <= usize::MAX / 8,
                None => true,
            },
        ensures
            final(db).wf(),
            same_config(final(db), old(db)),
            ({
                let c = db_config(old(db));
                let bad = match max_len {
                    Some(m) => m == 0,
                    None => false,
                };
                if bad {
                    r is Err && final(db).store() == old(db).store()
                } else {
                    let hm = match max_len {
                        Some(m) => Some(
                            crate::utils::spec_host_len(
                                m as nat,
                                host_width as nat,
                                value_width as nat,
                            ),
                        ),
                        None => None,
                    };
                    let o = crate::vector::spec_vector_create(old(db).store(), 0, hm, true, c);
                    if !o.2 {
                        final(db).store() == o.0 && r is Err
                    } else {
                        let meta = crate::list::spec_mixed_meta(
                            o.0,
                            ValueRep::End(Seq::<u8>::empty()),
                            o.1.root,
                            0,
                            true,
                            c,
                        );
                        if !meta.2 {
                            final(db).store() == meta.0 && r is Err
                        } else {
                            let d = spec_tree_drop(meta.0, o.1.root, true, c.noop);
                            final(db).store() == d.0 && match r {
                                Ok(list) => d.1 && list@.root == meta.1 && list@.inner.tuple
                                    == o.1 && list@.inner.len == 0 && list@.inner.hw
                                    == host_width && list@.inner.vw == value_width
                                    && list@.inner.max_len == (match max_len {
                                    Some(m) => Some(m as nat),
                                    None => None::<nat>,
                                }) && packed_wf(list@.inner),
                                Err(_) => !d.1,
                            }
                        }
                    }
                }
            }),
    {
        match crate::length::LengthMixed::<Owned>::create(db, max_len, host_width, value_width) {
            Ok(mixed) => Ok(PackedList(mixed)),
            Err(e) => Err(e),
        }
    }
}

} // verus!

//! Content-addressed, reference-counted binary merkle tree substrate with
//! typed containers and an SSZ-style serialization layer.

mod codec;
mod empty;
mod hasher;
mod index;
mod length;
mod list;
mod memory;
mod packed;
mod proving;
mod raw;
mod store;
mod traits;
mod tuple;
mod utils;
mod vec;
mod vector;

pub use crate::codec::{
    bits_tail_zero, bools_bits, bytes_chunks, chunks_root, decode_with_length,
    from_bool_list_tree, from_bool_vector_tree, from_compact_list_tree,
    into_bool_list_tree, into_bool_vector_tree, lemma_pow2_vals, spec_bit, spec_bool_bytes,
    spec_unpack_bits,
    from_compact_vector_tree, into_compact_list_tree, into_compact_vector_tree,
    lemma_bytes_chunks_count, lemma_chunk_cap_holds, lemma_chunk_round_trip, lemma_chunk_well_formed, lemma_le_bytes_len,
    lemma_le_split, lemma_le_value_bound, lemma_le_zero, lemma_pow256_mono, lemma_pow256_values,
    lemma_primitive_round_trip, lemma_root_deterministic, lemma_uints_bytes_len, packed_reads_ok, spec_read_bytes, lemma_mix_then_decode,
    lemma_uints_bytes_push, lemma_vector_tree_root, mix_in_length, packed_chunks, packed_read_at,
    packed_tuple_rep, packed_vector_root, reads_back, tree_root, uints_bytes, Compact, CompactRef,
    ElementalFixedVec, ElementalFixedVecRef, ElementalVariableVec, ElementalVariableVecRef,
    spec_packed_list_tree, spec_packed_vector_tree, tail_zero, FixedVec, FixedVecRef, FromTree,
    IntoTree, LittleEndian, MaxVec, TreeSpec, VariableVec, VariableVecRef, H256, U256,
};
pub use crate::empty::{
    spec_empty_extend, spec_empty_shrink, DanglingMerkleEmpty, MerkleEmpty, OwnedMerkleEmpty,
};
pub use crate::hasher::sha256_of;
pub use crate::index::{is_ancestor_of, route_of, MerkleIndex, MerkleRoute, MerkleSelection};
pub use crate::length::{LengthMixed, MixedRep};
pub use crate::list::{mixed_left, mixed_len, mixed_pair_ok, spec_list_meta, spec_mixed_meta, DanglingList, List, ListRep, OwnedList};
pub use crate::memory::{
    EmptyStatus, InMemoryBackend, InMemoryBackendError, InheritedDigestConstruct, InheritedEmpty,
    NoopBackend, NoopBackendError, UnitDigestConstruct, UnitEmpty,
};
pub use crate::packed::{
    coverings, packed_wf, ranges_width, rest_ranges, spec_coverings, spec_packed_pop,
    spec_packed_push, spec_packed_read, spec_packed_write, spec_pop_hosts, spec_push_zeros, zero_bytes, DanglingPackedList,
    DanglingPackedVector, OwnedPackedList, OwnedPackedVector, PackedList, PackedRep, PackedVector,
};
pub use crate::proving::{
    compact_fuel, hash_consistent, lemma_compact_round_trip, lemma_proofs_replay,
    spec_compact_len, spec_compact_proofs, spec_compact_root, spec_from_plain, spec_inserted,
    spec_into_compact, CompactRep, CompactValue, Proofs, ProofsRep, ProvingBackend, ProvingState,
};
pub use crate::raw::{
    lemma_raw_set_consistent, lemma_set_walk_consistent, plug, sel_value, spec_get, spec_raw_set,
    spec_set_walk, spec_tree_drop, DanglingRaw, OwnedRaw, Raw,
};
pub use crate::store::{
    child_keys, child_present, empty_chain_store, empty_root, lemma_insert_contains,
    lemma_insert_idempotent, store_bump, store_bump_child, store_insert_res, store_remove_all,
    store_rootify_res, PairRep, StoreRep,
};
pub use crate::traits::{
    db_config, hash_of_pair, intermediate_of, same_config, Backend, Construct, Dangling, DbConfig,
    Error, Leak, Owned, ReadBackend, RootStatus, Sequence, Tree, Value, ValueRep, WriteBackend,
};
pub use crate::tuple::{DanglingMerkleTuple, MerkleTuple, OwnedMerkleTuple};
pub use crate::utils::{
    decode_length, encode_length, host_len, le_bytes_of, le_value, lemma_le_round_trip, pow256,
    required_depth, serialize_vector, spec_host_len, spec_vector_tree, values_rep, vector_tree,
    Serialize,
};
pub use crate::vec::{DanglingMerkleVec, MerkleVec, OwnedMerkleVec};
pub use crate::vector::{
    cml, depth_for, next_pow2, pop_replace, pow2, spec_empty_at, spec_extend, spec_shrink,
    spec_vector_create, spec_vector_pop, spec_vector_push, spec_vector_set, vector_wf,
    DanglingVector, OwnedVector, Vector, VectorRep,
};

use crate::block::Block;
use std::sync::Arc;
use vstd::prelude::*;

verus! {

/// The concurrent cache of `moka`.
#[verifier::external_type_specification]
#[verifier::external_body]
#[verifier::reject_recursive_types(K)]
#[verifier::reject_recursive_types(V)]
#[verifier::reject_recursive_types(S)]
pub struct ExCache<K, V, S>(moka::sync::Cache<K, V, S>);

/// A cache of decoded blocks, keyed by table id and block index.
pub type BlockCache = moka::sync::Cache<(usize, usize), Arc<Block>>;

/// `Cache::new`: a cache bounded by `max_capacity`. Nothing is claimed of
/// what it holds.
#[verifier::external_body]
pub(crate) fn new_block_cache(max_capacity: u64) -> (cache: BlockCache) {
    moka::sync::Cache::new(max_capacity)
}

} // verus!

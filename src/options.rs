//! Parameters for writing and reading tables.
use vstd::prelude::*;

use crate::cache::Cache;
use crate::cmp::DefaultCmp;
use crate::filter::BloomPolicy;

verus! {

/// Default size at which a data block is closed.
pub const BLOCK_MAX_SIZE: usize = 4096;
/// Default number of blocks the cache holds.
pub const BLOCK_CACHE_CAPACITY: usize = 2048;
/// Default size of the write buffer of a database using these tables.
pub const WRITE_BUFFER_SIZE: usize = 4194304;
/// Default bits per key of the Bloom filter.
pub const DEFAULT_BITS_PER_KEY: u32 = 10;

/// How block payloads are compressed.
#[derive(Clone, Copy, Debug, PartialEq, Eq, Structural)]
pub enum CompressionType {
    CompressionNone,
    CompressionSnappy,
}

/// The compression type stored as `i`, if `i` names one.
pub fn int_to_compressiontype(i: u32) -> (r: Option<CompressionType>)
    ensures
        i == 0 ==> r == Some(CompressionType::CompressionNone),
        i == 1 ==> r == Some(CompressionType::CompressionSnappy),
        i > 1 ==> r is None,
{
    match i {
        0 => Some(CompressionType::CompressionNone),
        1 => Some(CompressionType::CompressionSnappy),
        _ => None,
    }
}

/// Options for building and reading tables.
pub struct Options {
    pub cmp: DefaultCmp,
    pub write_buffer_size: usize,
    pub block_cache: Cache,
    pub block_size: usize,
    pub block_restart_interval: usize,
    /// The compression asked for. Snappy pays only where it shrinks a block
    /// by an eighth; no Snappy codec is linked here, so blocks are always
    /// stored uncompressed, and a compressed block is reported as
    /// `NotSupported` when read.
    pub compression_type: CompressionType,
    pub filter_policy: BloomPolicy,
}

impl Options {
    /// These options with a fresh block cache holding up to `capacity` blocks.
    pub fn with_cache_capacity(self, capacity: usize) -> (r: Options)
        ensures
            r.block_cache.wf(),
            r.block_cache.cap() == capacity,
            r.block_cache.view().len() == 0,
            r.block_cache.next() == 1,
            r.block_size == self.block_size,
            r.block_restart_interval == self.block_restart_interval,
            r.compression_type == self.compression_type,
            r.filter_policy == self.filter_policy,
            r.write_buffer_size == self.write_buffer_size,
    {
        let mut o = self;
        o.block_cache = Cache::new(capacity);
        o
    }
}

impl Default for Options {
    /// Bytewise order, Bloom filters of 10 bits per key, blocks of 4 KiB
    /// with a whole key every 16 entries, no compression, and a cache of
    /// 2048 blocks.
    fn default() -> (r: Options)
        ensures
            r.block_cache.wf(),
            r.block_cache.cap() == BLOCK_CACHE_CAPACITY,
            r.block_cache.view().len() == 0,
            r.block_cache.next() == 1,
            r.block_size == BLOCK_MAX_SIZE,
            r.block_restart_interval == 16,
            r.compression_type == CompressionType::CompressionNone,
            r.filter_policy.bits() == DEFAULT_BITS_PER_KEY,
            r.filter_policy.probes() == crate::filter::probes_for(DEFAULT_BITS_PER_KEY as nat),
    {
        Options {
            cmp: DefaultCmp,
            write_buffer_size: WRITE_BUFFER_SIZE,
            block_cache: Cache::new(BLOCK_CACHE_CAPACITY),
            block_size: BLOCK_MAX_SIZE,
            block_restart_interval: 16,
            compression_type: CompressionType::CompressionNone,
            filter_policy: BloomPolicy::new(DEFAULT_BITS_PER_KEY),
        }
    }
}

} // verus!

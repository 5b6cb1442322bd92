//! A chained hash map built from first principles: an array of buckets, each
//! a short list of key/value pairs, with dynamic doubling of the bucket count
//! and a hash drawn from a fresh hasher per operation.

mod key;
mod laws;
mod map;

pub use key::BorrowedKey;
pub use key::HashKey;
pub use key::text_hash;
pub use laws::keys_of;
pub use laws::lemma_insert_overwrites;
pub use laws::lemma_len_counts_distinct_keys;
pub use laws::lemma_never_inserted_absent;
pub use laws::map_after_inserts;
pub use map::HashMap;
pub use map::INITIAL_NBUCKETS;
pub use map::grown_bucket_count;
pub use map::Iter;

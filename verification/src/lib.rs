//! Compares two directory trees by file content.
//!
//! Files are fingerprinted with a BLAKE3 content digest and grouped by
//! digest, one grouping per tree side; the two groupings are then
//! partitioned into the paths whose content appears on both sides and the
//! paths whose content is unique to either side.  Everything that decides
//! or computes lives here and is verified; walking the filesystem, reading
//! file bytes and the thread pool that feeds them in are left to the
//! surrounding binary.

pub mod digest;
pub mod mapping;
pub mod ordering;
pub mod partition;
pub mod paths;

pub use digest::Digest;
pub use digest::FileHasher;
pub use mapping::SideMapping;
pub use mapping::Side;
pub use mapping::WorkerMaps;
pub use mapping::compute_file_hash_and_insert_path;
pub use ordering::sort_paths;
pub use partition::compare_hashmaps;
pub use partition::partition_map_values;
pub use paths::FilePath;
pub use paths::is_hidden;

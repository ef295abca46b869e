//! Stream File System: a file system kept inside a single file.

pub mod audit_laws;
pub mod bench;
pub mod block_cache;
pub mod block_check;
pub mod block_file;
pub mod block_image;
pub mod block_layer;
pub mod blocks_from_files;
pub mod blocks_in_file;
pub mod bytes;
pub mod call_laws;
pub mod cli;
pub mod cli_laws;
pub mod compressed;
pub mod compressed_cut;
pub mod compressed_stream;
pub mod descriptor;
pub mod dir_changes;
pub mod dir_entries;
pub mod dir_laws;
pub mod dir_ops;
pub mod fault_laws;
pub mod file_layer;
pub mod files_laws;
pub mod format_laws;
pub mod free_chain;
pub mod free_list;
pub mod handles;
pub mod header_sections;
pub mod layer_laws;
pub mod life_laws;
pub mod locks;
pub mod lz4;
pub mod maps;
pub mod names;
pub mod path_laws;
pub mod plain;
pub mod pyramid;
pub mod pyramid_grow;
pub mod pyramid_io;
pub mod pyramid_shrink;
pub mod reopen;
pub mod sfs;
pub mod sfs_laws;
pub mod sfs_model;
pub mod store_laws;
pub mod stream_audit;
pub mod stream_check;
pub mod stream_claims;
pub mod stream_layer;
pub mod stream_ops;
pub mod stream_table;
pub mod stream_tree;
pub mod streams_from_blocks;
pub mod streams_from_files;
pub mod terms;
pub mod transfer;
pub mod transfer_laws;
pub mod tree_check;
pub mod tree_shape;
pub mod types;
pub mod verify_laws;

pub use block_layer::BlockLayer;
pub use blocks_from_files::BlocksFromFiles;
pub use blocks_in_file::BlocksInFile;
pub use file_layer::{FileLayer, MemoryFile};
pub use handles::BlockStreamHandle;
pub use sfs::Sfs;
pub use stream_layer::StreamLayer;
pub use streams_from_blocks::StreamsFromBlocks;
pub use streams_from_files::{FileStreamHandle, StreamsFromFiles};
pub use types::{CacheMode, DirEntry, EntryType, HeaderSlotId, OpenMode, SfsError, StreamHandle};

use vstd::prelude::*;

verus! {

/// A file system with a cache of two megabytes, in a file of type `L1`.
pub type SfsDefault<L1> = Sfs<StreamsFromBlocks<BlocksInFile<L1, 2097152>>>;

/// A greeting.
pub fn hello() -> (greeting: String)
    ensures
        greeting@ == "Hello from Stream File System!"@,
{
    "Hello from Stream File System!".to_owned()
}

} // verus!

pub mod block_list;
pub mod coalescing;
pub mod free_block;
pub mod free_header;
pub mod list_proofs;
pub mod pop_proofs;
pub mod region;
pub mod release_proofs;
pub mod stats;
pub mod validity;

pub use block_list::{ApplyState, BlockIter, BlockList};
pub use free_block::FreeBlock;
pub use free_header::{header_size, FreeHeader};
pub use region::Region;
pub use stats::Stats;
pub use validity::Validity;



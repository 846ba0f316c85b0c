//! On-flash page format of a two-channel frequency recorder: the page header,
//! the bounded page packer, the page unpacker and the reconstruction of the
//! two sampled channels from a chain of pages.

pub mod add_signed;
pub mod header;
pub mod packer;
pub mod unpacker;
pub mod reconstruct;
pub mod recording;
pub mod duration;
pub mod report;

pub use duration::PrettyDuration;
pub use header::DataPacketHeader;
pub use packer::{DataBlockPacker, DataBlockPackerBuilder, EncoderReply, PushResult};
pub use reconstruct::{PageData, Record, unpack_pages};
pub use unpacker::DataBlockUnPacker;

pub mod text;
pub mod bencode;
pub mod torrent;
pub mod tracker;
pub mod generator;
pub mod emulation;
pub mod spoofer;
pub mod units;

pub use torrent::TorrentInfo;
pub use tracker::{TrackerClient, AnnounceRequest, AnnounceResponse};
pub use emulation::{ClientProfile, ClientEmulation};
pub use generator::{PeerIdGenerator, KeyGenerator};
pub use spoofer::{RatioSpoofer, SpooferConfig, SpooferState, ProgressUpdate};

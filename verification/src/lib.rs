pub mod quipu_tile;
pub mod kintsugi_health;
pub mod songline_navigation;
pub mod griot_memory;
pub mod palaver_consensus;
pub mod symmetry_detection;

pub use kintsugi_health::{GoldenSeam, KintsugiHealth};
pub use quipu_tile::{CordTree, QuipuTile};
pub use songline_navigation::{RoomId, SonglineGraph, SonglineNavigation};
pub use griot_memory::{GriotMemory, RoomMemory};
pub use palaver_consensus::{PalaverConsensus, RoomConsensus};
pub use symmetry_detection::{SymmetryDetection, SymmetryGroup};

pub mod memory;
pub mod state;
pub mod view;

pub use memory::{EnemyStatus, NewsRecord, RememberedEnemy, WorldMemory};
pub use state::{World, build_events, frame_applied};
pub use view::WorldView;

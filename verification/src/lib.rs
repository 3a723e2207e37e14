//! Tab overview core: the board of sessions, tabs and pins, its keyboard
//! state machine, and the responsive card layout. No Zellij types here; the
//! plugin adapter maps host events in and performs the actions that come out.

pub mod grid;
pub mod text;
pub mod facts;
pub mod last_tabs;
pub mod search;
pub mod width;
pub mod board;
pub mod overview;
pub mod hints;
pub mod sorting;
pub mod host;
pub mod laws;
pub mod float_size;
pub mod floating_state;
pub mod toggle;
pub mod usage;
pub mod geo;
pub mod scene;
pub mod frame;
pub mod keymap;
pub mod cache;
pub mod face;
pub mod ansi;

pub use facts::{display_name, Action, CachePrune, Key, Pin, SessionFact, TabFact};
pub use float_size::{float_size_from_config, FloatSize};
pub use floating_state::FloatingLayerState;
pub use overview::Overview;
pub use usage::{append_usage_log, Usage, UsageEnd, USAGE_CAP};
pub use frame::Frame;
pub use host::Host;
pub use scene::{SceneError, SceneRunner, SceneStep};

//! Directory-size explorer: the scanning, navigation and layout logic.
pub mod app;
pub mod bench;
pub mod browse;
pub mod census;
pub mod classic;
pub mod completion;
pub mod finish;
pub mod gui;
pub mod keymap;
pub mod keys;
pub mod life;
pub mod model;
pub mod mounts;
pub mod order;
pub mod path;
pub mod pool;
pub mod reading;
pub mod rows;
pub mod run;
pub mod scan;
pub mod screen;
pub mod snapshot;
pub mod stack;
pub mod steps;
pub mod style;
pub mod text;
pub mod theme;
pub mod top;
pub mod tree;
pub mod tui;
pub mod util;
pub mod walk;

pub use crate::app::AppState;
pub use crate::model::DirEntry;
pub use crate::mounts::list_mounts;
pub use crate::mounts::MountPoint;
pub use crate::scan::ExtensionStat;
pub use crate::scan::ScanState;
pub use crate::snapshot::EntrySnapshot;
pub use crate::snapshot::UiSnapshot;
pub use crate::top::SizedEntry;
pub use crate::util::allocated_size;
pub use crate::util::format_size;
pub use crate::util::strip_unc_prefix;

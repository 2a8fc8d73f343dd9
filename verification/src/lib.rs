//! Text processing behind three status-bar widgets: a diagnostics summary,
//! a CPU/GPU resource meter and a workspace overview.

pub mod text;
pub mod number;
pub mod waybar;
pub mod diagnostics;
pub mod resources;
pub mod workspaces;

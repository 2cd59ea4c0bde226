//! Window-management logic of the ironland compositor: keyboard-shortcut
//! and output configuration, the application launcher and its overlay, BSP
//! tiling trees and per-output workspaces, and the bookkeeping behind the
//! compositor's small protocols (focus grabs, the toplevel list, the
//! workspace-window list) and the workspace bridge client.

pub mod geometry;
pub mod text;
pub mod config;
pub mod shell;
pub mod launcher;
pub mod drawing;
pub mod focus_grab;
pub mod foreign_toplevel;
pub mod workspace_windows;
pub mod workspace_groups;
pub mod wallpaper;
pub mod session;

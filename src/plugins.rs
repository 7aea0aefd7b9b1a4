//! The stages that the plugins of an application go through.
use vstd::prelude::*;

verus! {

/// Plugins state in the app.
#[derive(PartialEq, Eq, Debug, Clone, Copy)]
pub enum PluginsState {
    /// Plugins are being added.
    Adding,
    /// All plugins already added are ready.
    Ready,
    /// Finish has been executed for all plugins added.
    Finished,
    /// Cleanup has been executed for all plugins added.
    Cleaned,
}

} // verus!

//! Where an instance runs, and what a restart of its service needs.

use vstd::prelude::*;

verus! {

/// The runtime that hosts an instance.
#[derive(Debug, Clone, Copy, PartialEq, Eq, Structural)]
pub enum Runtime {
    /// A Proxmox container, reached through `pct`.
    Lxc,
    /// A container of a Docker engine.
    Docker,
}

impl Default for Runtime {
    fn default() -> (r: Runtime)
        ensures
            r == Runtime::Lxc,
    {
        Runtime::Lxc
    }
}

/// Which service to restart.
#[derive(Debug, Clone, PartialEq, Eq)]
pub struct PlexRestartArgs {
    /// Where the instance runs.
    pub runtime: Runtime,
    /// LXC vmid (LXC runtime only).
    pub vmid: Option<u32>,
    /// Docker container name (Docker runtime only).
    pub container: String,
}

} // verus!

use vstd::prelude::*;

verus! {

/// Which container runtime owns a process, detected from its cgroup path.
#[derive(Debug, Clone, Copy, PartialEq, Eq, Structural)]
pub enum ContainerRuntime {
    Docker,
    Podman,
    Containerd,
}

/// Container metadata for a process that belongs to one. `name`, `image`
/// and `status` are `None` when the id was recognized from the cgroup path
/// but the runtime's own inspect command could not be run.
#[derive(Debug, Clone, PartialEq, Eq)]
pub struct ContainerInfo {
    pub runtime: ContainerRuntime,
    pub id: String,
    pub name: Option<String>,
    pub image: Option<String>,
    pub status: Option<String>,
}

} // verus!

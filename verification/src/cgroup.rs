use vstd::prelude::*;

verus! {

#[derive(Debug, Clone, Copy, PartialEq, Eq, Structural)]
pub enum CgroupVersion {
    V1,
    V2,
}

/// A process's cgroup membership. Several v1 hierarchies are flattened
/// into one path/controller-list pair.
#[derive(Debug, PartialEq)]
pub struct CgroupInfo {
    pub version: CgroupVersion,
    pub path: String,
    /// Controllers attached to this cgroup (cpu, memory, io, ...).
    pub controllers: Vec<String>,
}

/// The value of a `CgroupInfo`, with its controller list as a sequence.
pub struct CgroupView {
    pub version: CgroupVersion,
    pub path: String,
    pub controllers: Seq<String>,
}

impl View for CgroupInfo {
    type V = CgroupView;

    open spec fn view(&self) -> CgroupView {
        CgroupView { version: self.version, path: self.path, controllers: self.controllers@ }
    }
}

impl Clone for CgroupInfo {
    fn clone(&self) -> (r: Self)
        ensures
            r@ == self@,
    {
        let controllers = self.controllers.clone();
        assert(controllers@ =~= self.controllers@);
        CgroupInfo { version: self.version, path: self.path.clone(), controllers }
    }
}

} // verus!

use vstd::prelude::*;

verus! {

/// One `KEY=VALUE` entry from `/proc/[pid]/environ`.
#[derive(Debug, Clone, PartialEq)]
pub struct EnvVar {
    pub key: String,
    pub value: String,
}

} // verus!

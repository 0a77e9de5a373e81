//! Module identity: dense ids for paths and modules, and the direction in
//! which the module graph is walked.

use vstd::prelude::*;

verus! {

/// Dense identifier of an interned path string.
pub type PathId = usize;

/// Dense identifier of a logical module.
pub type ModuleId = usize;

/// A logical module: the unit of code or package the graph speaks of.
///
/// `module_id` alone carries the identity; `path_id` names the canonical
/// spelling under which the module was registered. Two values with the
/// same `module_id` and different `path_id` denote the same logical
/// module reached through different spellings, and compare equal.
#[derive(Clone, Copy, Eq, Debug)]
pub struct Module {
    pub path_id: PathId,
    pub module_id: ModuleId,
}

impl PartialEq for Module {
    fn eq(&self, other: &Module) -> (r: bool) {
        self.module_id == other.module_id
    }
}

impl vstd::std_specs::cmp::PartialEqSpecImpl for Module {
    open spec fn obeys_eq_spec() -> bool {
        true
    }

    open spec fn eq_spec(&self, other: &Module) -> bool {
        self.module_id == other.module_id
    }
}

/// The direction of a reachability query over the module graph.
#[derive(Clone, Copy, PartialEq, Eq, Structural, Debug)]
pub enum Direction {
    /// Follow edges as inserted: from an importer to what it imports.
    Outgoing,
    /// Follow edges reversed: from a module to its importers.
    Incoming,
}

} // verus!

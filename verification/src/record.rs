//! The instance record: one registered game as it is persisted, one JSON
//! document per instance.

use vstd::prelude::*;

verus! {

/// One instance record. All four fields are free-form text; an empty
/// `description` means "none". `instance_type` names the way the game runs
/// (for example natively or under a compatibility layer) and is kept open
/// as plain text.
#[derive(Debug, Clone, PartialEq, Eq)]
pub struct InstanceConfig {
    pub instance_name: String,
    pub instance_path: String,
    pub instance_type: String,
    pub description: String,
}

/// The mathematical value of an `InstanceConfig`: its four fields as
/// character sequences.
pub ghost struct InstanceView {
    pub instance_name: Seq<char>,
    pub instance_path: Seq<char>,
    pub instance_type: Seq<char>,
    pub description: Seq<char>,
}

impl View for InstanceConfig {
    type V = InstanceView;

    open spec fn view(&self) -> InstanceView {
        InstanceView {
            instance_name: self.instance_name@,
            instance_path: self.instance_path@,
            instance_type: self.instance_type@,
            description: self.description@,
        }
    }
}

impl InstanceConfig {
    /// A record holding exactly the given fields.
    pub fn new(name: String, path: String, instance_type: String, description: String) -> (r:
        Self)
        ensures
            r@ == (InstanceView {
                instance_name: name@,
                instance_path: path@,
                instance_type: instance_type@,
                description: description@,
            }),
    {
        InstanceConfig { instance_name: name, instance_path: path, instance_type, description }
    }
}

} // verus!

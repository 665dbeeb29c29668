use vstd::prelude::*;
use vstd::string::StringExecFns;

verus! {

/// Errors that component creation and dependency resolution can report.
#[derive(Debug)]
pub enum ComponentError {
    /// `DependencyCycle(a, b)`: component `a` asked for `b` while `b` already depends on `a`.
    DependencyCycle(String, String),
    /// A component failed to initialize.
    InitializationFailed,
}

/// The text of the message of a `DependencyCycle(a, b)` error.
pub open spec fn cycle_message(a: Seq<char>, b: Seq<char>) -> Seq<char> {
    "Component `"@ + a + "` requires `"@ + b + "`, but `"@ + a + "` is a dependency of `"@ + b
        + "`"@
}

impl ComponentError {
    /// The human-readable description of the error.
    pub fn message(&self) -> (text: String)
        ensures
            match self {
                ComponentError::DependencyCycle(a, b) => text@ == cycle_message(a@, b@),
                ComponentError::InitializationFailed => text@ == "Failed to initialize component"@,
            },
    {
        match self {
            ComponentError::DependencyCycle(a, b) => {
                let mut text = String::from_str("Component `");
                text.append(a.as_str());
                text.append("` requires `");
                text.append(b.as_str());
                text.append("`, but `");
                text.append(a.as_str());
                text.append("` is a dependency of `");
                text.append(b.as_str());
                text.append("`");
                text
            },
            ComponentError::InitializationFailed => String::from_str(
                "Failed to initialize component",
            ),
        }
    }
}

/// A component type knows its own name.
pub trait ComponentName {
    fn component_name() -> &'static str;
}

/// Identity of a registered component: its name and the key of its type.
/// Two infos are equal when their type keys are equal.
#[derive(Clone, Copy, Debug)]
pub struct ComponentInfo {
    pub name: &'static str,
    pub type_id: u64,
}

impl PartialEq for ComponentInfo {
    fn eq(&self, other: &Self) -> (r: bool) {
        self.type_id == other.type_id
    }
}

impl vstd::std_specs::cmp::PartialEqSpecImpl for ComponentInfo {
    open spec fn obeys_eq_spec() -> bool {
        true
    }

    open spec fn eq_spec(&self, other: &Self) -> bool {
        self.type_id == other.type_id
    }
}

impl Eq for ComponentInfo {

}

impl ComponentInfo {
    /// The info of the component type `C`, whose type is known under the key `type_id`.
    pub fn new<C: ComponentName>(type_id: u64) -> (info: Self)
        ensures
            info.type_id == type_id,
            call_ensures(C::component_name, (), info.name),
    {
        ComponentInfo { name: C::component_name(), type_id }
    }
}

} // verus!

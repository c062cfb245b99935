//! The ways in which an operation of this library fails.

use vstd::prelude::*;

verus! {

/// Why an operation failed.
#[derive(Clone, Copy, Debug, PartialEq, Eq, Structural)]
pub enum ConfigError {
    /// The root of a configuration is not an object.
    ShapeError,
    /// Two configurations that should have the same layout do not.
    ShapeMismatch,
    /// No configuration or delta is stored under the name, version or id asked for.
    NotFound,
    /// The store cannot take another row.
    StorageError,
}

impl ConfigError {
    /// The words for an error.
    pub open spec fn spec_message(self) -> Seq<char> {
        match self {
            ConfigError::ShapeError => "Json object, should be a tree not a single leaf."@,
            ConfigError::ShapeMismatch => "Key structure must be the same in the jsons."@,
            ConfigError::NotFound => "No config or delta is stored under what was asked for."@,
            ConfigError::StorageError => "The store cannot take another row."@,
        }
    }

    /// The words for this error.
    pub fn message(&self) -> (text: String)
        ensures
            text@ == self.spec_message(),
    {
        match self {
            ConfigError::ShapeError => {
                "Json object, should be a tree not a single leaf.".to_owned()
            },
            ConfigError::ShapeMismatch => {
                "Key structure must be the same in the jsons.".to_owned()
            },
            ConfigError::NotFound => {
                "No config or delta is stored under what was asked for.".to_owned()
            },
            ConfigError::StorageError => "The store cannot take another row.".to_owned(),
        }
    }
}

} // verus!

//! What the app remembers between runs.
//!
//! Small and forgiving on purpose: a missing, unreadable, or half-written file
//! just means defaults, never a failure to start.

use vstd::prelude::*;

use crate::download::{model_by_name, named, DEFAULT_MODEL};

verus! {

/// The settings.
#[derive(Debug, Clone, PartialEq)]
pub struct Settings {
    /// Speech model last picked in the model dropdown, by name. None on a first
    /// run; a name no longer offered falls back to the default.
    pub model: Option<String>,
}

impl Default for Settings {
    fn default() -> (r: Self)
        ensures
            r.model is None,
    {
        Settings { model: None }
    }
}

impl Settings {
    /// The name of the model to use.
    pub fn chosen_model(&self) -> (r: String)
        ensures
            r@ == match self.model {
                Some(name) => if exists|i: int| #[trigger] named(i, name@) {
                    name@
                } else {
                    DEFAULT_MODEL@
                },
                None => DEFAULT_MODEL@,
            },
    {
        match &self.model {
            Some(name) => match model_by_name(name.as_str()) {
                Some(_) => name.clone(),
                None => DEFAULT_MODEL.to_owned(),
            },
            None => DEFAULT_MODEL.to_owned(),
        }
    }
}

} // verus!

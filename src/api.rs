//! Values handed to the outside: the list of instrument names and the log format setting.
use vstd::prelude::*;

verus! {

/// The names of the available instruments.
#[derive(Debug)]
pub struct ObligacjeResponse {
    pub obligacje: Vec<String>,
}

impl ObligacjeResponse {
    pub fn new(obligacje: Vec<String>) -> (r: Self)
        ensures
            r.obligacje@ == obligacje@,
    {
        ObligacjeResponse { obligacje }
    }
}

/// How log records are written.
#[derive(Clone, Copy, Debug, PartialEq, Eq, Structural)]
pub enum LogFormat {
    Text,
    Json,
}

} // verus!

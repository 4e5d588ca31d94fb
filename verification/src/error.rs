use vstd::prelude::*;
use vstd::string::StringExecFns;

verus! {

/// Errors surfaced by the routing engine: plain I/O failures and
/// configuration failures, each carrying a free-text message.
#[derive(Debug)]
pub enum FileRouterError {
    IoError(String),
    ConfigError(String),
}

impl FileRouterError {
    /// A labelled, human-readable description of the error.
    pub fn describe(&self) -> (r: String)
        ensures
            (self matches FileRouterError::IoError(m) ==> r@ == "IO Error: "@ + m@),
            (self matches FileRouterError::ConfigError(m) ==> r@ == "Config Error: "@ + m@),
    {
        match self {
            FileRouterError::IoError(m) => {
                let mut s = String::from_str("IO Error: ");
                s.append(m.as_str());
                s
            },
            FileRouterError::ConfigError(m) => {
                let mut s = String::from_str("Config Error: ");
                s.append(m.as_str());
                s
            },
        }
    }
}

} // verus!

use vstd::prelude::*;

verus! {

/// Runtime configuration, loaded once before the read loop starts and
/// immutable for the process lifetime: the monitor to target, the
/// directory of candidate wallpapers, and an optional debug flag.
#[derive(Debug, Clone)]
pub struct Config {
    pub monitor: String,
    pub wallpapers: String,
    pub debug: Option<bool>,
}

} // verus!

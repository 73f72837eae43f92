//! Display options of the tree printer.

use vstd::prelude::*;

verus! {

/// What the printer shows of each process, and in which order it walks
/// the children of a node.
#[derive(Debug, Clone, Copy, PartialEq, Eq, Structural)]
pub struct PrintConfig {
    pub show_pid: bool,
    pub show_arg: bool,
    pub show_path: bool,
    pub sort: bool,
}

impl Default for PrintConfig {
    fn default() -> (cfg: PrintConfig)
        ensures
            cfg == (PrintConfig { show_pid: false, show_arg: false, show_path: false, sort: false }),
    {
        PrintConfig { show_pid: false, show_arg: false, show_path: false, sort: false }
    }
}


impl PrintConfig {
    /// The configuration that shows names only and keeps the children in
    /// their order.
    pub fn new() -> (cfg: PrintConfig)
        ensures
            cfg == (PrintConfig { show_pid: false, show_arg: false, show_path: false, sort: false }),
    {
        PrintConfig { show_pid: false, show_arg: false, show_path: false, sort: false }
    }

    /// Sets whether the pid is shown, in parentheses, before the name.
    pub fn show_pid(self, show_pid: bool) -> (cfg: PrintConfig)
        ensures
            cfg == (PrintConfig { show_pid, ..self }),
    {
        PrintConfig { show_pid, ..self }
    }

    /// Sets whether the arguments are shown behind the name.
    pub fn show_arg(self, show_arg: bool) -> (cfg: PrintConfig)
        ensures
            cfg == (PrintConfig { show_arg, ..self }),
    {
        PrintConfig { show_arg, ..self }
    }

    /// Sets whether the image path is shown in place of the name.
    pub fn show_path(self, show_path: bool) -> (cfg: PrintConfig)
        ensures
            cfg == (PrintConfig { show_path, ..self }),
    {
        PrintConfig { show_path, ..self }
    }

    /// Sets whether the children of a node are shown by ascending pid.
    pub fn sort(self, sort: bool) -> (cfg: PrintConfig)
        ensures
            cfg == (PrintConfig { sort, ..self }),
    {
        PrintConfig { sort, ..self }
    }

    /// Ends the chain of settings.
    pub fn build(self) -> (cfg: PrintConfig)
        ensures
            cfg == self,
    {
        self
    }
}

} // verus!

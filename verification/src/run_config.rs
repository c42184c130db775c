//! The execution parameters of one benchmark case.

use vstd::prelude::*;

verus! {

/// Define values used to configure a benchmark run: one named command, how it
/// is invoked, and how many times it is to be repeated.
#[derive(Debug)]
pub struct RunConfig {
    pub name: String,
    pub description: String,
    pub count: i64,
    pub command: String,
    /// empty vector if no args were configured
    pub args: Vec<String>,
    /// working directory for the command; `.` when not configured
    pub directory: String,
    /// optional environment overrides
    pub environment: Vec<String>,
}

/// The mathematical content of a `RunConfig`.
pub ghost struct RunConfigV {
    pub name: Seq<char>,
    pub description: Seq<char>,
    pub count: i64,
    pub command: Seq<char>,
    pub args: Seq<Seq<char>>,
    pub directory: Seq<char>,
    pub environment: Seq<Seq<char>>,
}

impl View for RunConfig {
    type V = RunConfigV;

    open spec fn view(&self) -> RunConfigV {
        RunConfigV {
            name: self.name@,
            description: self.description@,
            count: self.count,
            command: self.command@,
            args: self.args.deep_view(),
            directory: self.directory@,
            environment: self.environment.deep_view(),
        }
    }
}

/// The invariant the engine requires of every configuration it is handed:
/// a command to spawn, and at least one trial to run.
pub open spec fn config_valid(c: RunConfigV) -> bool {
    c.command.len() >= 1 && c.count >= 1
}

/// Every configuration of the mapping is valid.
pub open spec fn config_map_valid(s: Seq<(Seq<char>, RunConfigV)>) -> bool {
    forall|i: int| 0 <= i < s.len() ==> config_valid((#[trigger] s[i]).1)
}

} // verus!

//! Identities of the two data panes whose contents this library provides: the
//! log pane shows the retained log ring, the results pane the dimension/speed
//! readout and the measurement table. Their drawing lives in the presentation
//! layer; here each pane carries its title and nothing else.

use vstd::prelude::*;

verus! {

/// The pane that lists the retained log lines.
pub struct LogsTab;

impl LogsTab {
    /// Title under which the presentation layer shows the pane.
    pub fn title(&self) -> (r: &'static str)
        ensures
            r@ == "Logs"@,
    {
        "Logs"
    }
}

/// The pane that shows the readout and the per-sensor measurements.
pub struct ResultsTab;

impl ResultsTab {
    /// Title under which the presentation layer shows the pane.
    pub fn title(&self) -> (r: &'static str)
        ensures
            r@ == "Results"@,
    {
        "Results"
    }
}

} // verus!

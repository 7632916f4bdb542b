//! The interface between a search and the user interface that shows it.
use vstd::prelude::*;

verus! {

/// What a worker thread last reported: the expression it is looking at,
/// and whether it is paused.
#[derive(Clone, PartialEq, Eq, Debug)]
pub enum ThreadStatus {
    Searching(String),
    Paused(String),
}

/// A request from the user interface to the manager of the search.
#[derive(Copy, Clone, PartialEq, Eq, Structural, Debug)]
pub enum UISignal {
    Quit,
    IncreaseThreadCount,
    DecreaseThreadCount,
    PauseUnpause,
}

/// The panels of the dashboard.
#[derive(Copy, Clone, PartialEq, Eq, Structural, Debug)]
pub enum DashboardBlock {
    Stats,
    SolutionInspector,
    ThreadViewer,
    NewsFeed,
    Description,
}

/// A worker thread as the manager of a search sees it.
pub struct Thread {
    pub id: usize,
    pub length: usize,
    pub reported_status: Option<ThreadStatus>,
    pub should_be_running: bool,
}

/// A user interface for a search. The manager of the search reports to it
/// what happens and asks it for the user's requests.
pub trait UI: Sized {
    /// Set up the interface.
    fn new() -> Self;

    /// Whether the search waits for the user to quit once all work is done.
    fn require_manual_exit() -> bool;

    fn set_description(&mut self, _description: String) {
    }

    fn set_inspector_enabled(&mut self, _enabled: bool) {
    }

    fn set_debug_banner_enabled(&mut self, _enabled: bool) {
    }

    fn push_solution(&mut self, _face: String, _score: usize, _inspection: Option<String>) {
    }

    fn set_total_count(&mut self, _total_count: u128) {
    }

    fn set_target_thread_count(&mut self, _target_thread_count: usize) {
    }

    fn set_thread_statuses(&mut self, _thread_statuses: Vec<Option<ThreadStatus>>) {
    }

    fn finished_expression_length(&mut self, _length: usize, _count: u128) {
    }

    fn draw(&mut self) {
    }

    /// The user's requests since the last call.
    fn handle_inputs(&mut self) -> Vec<UISignal>;
}

/// The interface of a silent search: it shows nothing, asks nothing, and
/// lets the search end by itself.
pub struct NullUI;

impl UI for NullUI {
    fn new() -> Self {
        NullUI
    }

    fn require_manual_exit() -> (r: bool)
        ensures
            !r,
    {
        false
    }

    fn handle_inputs(&mut self) -> (r: Vec<UISignal>)
        ensures
            r@ == Seq::<UISignal>::empty(),
    {
        Vec::new()
    }
}

} // verus!

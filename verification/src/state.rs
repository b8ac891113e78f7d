//! The state of one hint session: what was typed and what was picked.
use vstd::prelude::*;
use crate::hinter::{Target, TargetView};
use crate::text::string_views;

verus! {

/// Input typed so far, the modifier of the last key, the hints and texts
/// picked in multi-select mode, the result, and whether the session ends.
pub struct State {
    pub input: String,
    pub modifier: String,
    pub selected_hints: Vec<String>,
    pub multi_matches: Vec<String>,
    pub result: String,
    pub exiting: bool,
    pub multi_mode: bool,
    pub matched_target: Option<Target>,
}

/// A state as values.
pub struct StateModel {
    pub input: Seq<char>,
    pub modifier: Seq<char>,
    pub selected_hints: Seq<Seq<char>>,
    pub multi_matches: Seq<Seq<char>>,
    pub result: Seq<char>,
    pub exiting: bool,
    pub multi_mode: bool,
    pub matched_target: Option<TargetView>,
}

impl State {
    /// The state as values.
    pub open spec fn model(&self) -> StateModel {
        StateModel {
            input: self.input@,
            modifier: self.modifier@,
            selected_hints: string_views(self.selected_hints@),
            multi_matches: string_views(self.multi_matches@),
            result: self.result@,
            exiting: self.exiting,
            multi_mode: self.multi_mode,
            matched_target: match self.matched_target {
                Some(t) => Some(t@),
                None => None,
            },
        }
    }
}

impl Default for State {
    /// Nothing typed, nothing picked, single-select mode.
    fn default() -> (s: State)
        ensures
            s.input@ == Seq::<char>::empty(),
            s.modifier@ == Seq::<char>::empty(),
            s.selected_hints@ == Seq::<String>::empty(),
            s.multi_matches@ == Seq::<String>::empty(),
            s.result@ == Seq::<char>::empty(),
            !s.exiting,
            !s.multi_mode,
            s.matched_target is None,
    {
        State {
            input: String::new(),
            modifier: String::new(),
            selected_hints: Vec::new(),
            multi_matches: Vec::new(),
            result: String::new(),
            exiting: false,
            multi_mode: false,
            matched_target: None,
        }
    }
}

} // verus!

//! Completion: what a provider is asked, what it answers, and the providers.

pub mod bootstrap;
pub mod bootstrap_laws;
pub mod cache;
pub mod dynamic_hooks;
pub mod escapes;
pub mod help_indexer;
pub mod help_laws;
pub mod index_laws;
pub mod negative;
pub mod offer_laws;
pub mod parser;
pub mod path_binaries;
pub mod pattern;
pub mod section_laws;
pub mod style_laws;
pub mod worker;

use vstd::prelude::*;

verus! {

/// One completion that is offered.
#[derive(Debug, PartialEq, Eq)]
pub struct Suggestion {
    /// What replaces the token.
    pub text: String,
    /// What the list shows.
    pub display: String,
    pub description: String,
    pub group: SuggestionGroup,
}

/// Where a suggestion comes from.
#[derive(Debug, Clone, Copy, PartialEq, Eq, Structural)]
pub enum SuggestionGroup {
    Flag,
    Subcommand,
    File,
    Dynamic,
    History,
}

/// The texts of a suggestion.
#[verifier::ext_equal]
pub ghost struct SuggestionView {
    pub text: Seq<char>,
    pub display: Seq<char>,
    pub description: Seq<char>,
    pub group: SuggestionGroup,
}

impl View for Suggestion {
    type V = SuggestionView;

    open spec fn view(&self) -> SuggestionView {
        SuggestionView {
            text: self.text@,
            display: self.display@,
            description: self.description@,
            group: self.group,
        }
    }
}

impl Clone for Suggestion {
    fn clone(&self) -> (r: Self)
        ensures
            r == *self,
    {
        Suggestion {
            text: self.text.clone(),
            display: self.display.clone(),
            description: self.description.clone(),
            group: self.group,
        }
    }
}

/// The texts of a list of suggestions.
pub open spec fn suggestion_views(s: Seq<Suggestion>) -> Seq<SuggestionView> {
    s.map_values(|x: Suggestion| x@)
}

/// What a provider is asked.
#[derive(Debug, Clone)]
pub struct QueryCtx {
    pub command: String,
    pub current_token: String,
    pub previous_tokens: Vec<String>,
    /// The directory in which the command would run, as it is displayed.
    pub working_dir: String,
}

/// Numbers the queries, so that the answer to an old one can be told apart.
#[derive(Debug, Clone, Copy, PartialEq, Eq, Hash, Structural)]
pub struct GenerationId(pub u64);

/// Why a provider has no answer.
#[derive(Debug, Clone, PartialEq, Eq)]
pub enum ProviderErr {
    Timeout,
    Cancelled,
    NotFound,
    Io(String),
    Parse(String),
}

} // verus!

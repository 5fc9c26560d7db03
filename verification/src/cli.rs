//! The options of the command line and what they ask the program to do.

use vstd::prelude::*;

verus! {

/// The options that the command line takes.
pub struct Cli {
    /// The term to look up; taken from standard input where it is absent.
    pub search_term: Option<String>,
    /// How many matches to print.
    pub number: usize,
    /// Print the matches alone, without title, numbers or colour.
    pub clean_output: bool,
    /// Print each match with its edit distance from the search term.
    pub verbose: bool,
    /// Let the user pick a match and copy it to the system clipboard.
    pub yank: bool,
    /// The locale code of the word list to search.
    pub lang: String,
    /// List the supported languages and stop.
    pub print_langs: bool,
    /// Fetch every word list on disk anew and stop.
    pub update_langs: bool,
    /// Where the word lists are fetched from.
    pub wordlist_url: String,
}

/// What one run of the program is asked to do.
#[derive(Clone, Copy, Debug, PartialEq, Eq, Structural)]
pub enum Task {
    /// List the supported languages.
    PrintLangs,
    /// Fetch every word list on disk anew.
    UpdateLangs,
    /// Look the search term up in a word list.
    Search,
}

/// Where the search term of a run comes from.
#[derive(Clone, Copy, Debug, PartialEq, Eq, Structural)]
pub enum TermSource {
    /// It was given on the command line.
    Argument,
    /// It is the first line of standard input.
    StandardInput,
    /// It was not given, and standard input is a terminal with nothing to read.
    Missing,
}

impl Cli {
    /// What this run is asked to do. Listing the languages goes before
    /// updating them, and both go before a search.
    pub fn task(&self) -> (task: Task)
        ensures
            task == if self.print_langs {
                Task::PrintLangs
            } else if self.update_langs {
                Task::UpdateLangs
            } else {
                Task::Search
            },
    {
        if self.print_langs {
            Task::PrintLangs
        } else if self.update_langs {
            Task::UpdateLangs
        } else {
            Task::Search
        }
    }

    /// Where the search term comes from, given whether standard input is a
    /// terminal.
    pub fn term_source(&self, stdin_is_terminal: bool) -> (source: TermSource)
        ensures
            source == if self.search_term is Some {
                TermSource::Argument
            } else if stdin_is_terminal {
                TermSource::Missing
            } else {
                TermSource::StandardInput
            },
    {
        if self.search_term.is_some() {
            TermSource::Argument
        } else if stdin_is_terminal {
            TermSource::Missing
        } else {
            TermSource::StandardInput
        }
    }
}

} // verus!

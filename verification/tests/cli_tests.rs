use didyoumean::cli::Task;
use didyoumean::cli::TermSource;
use didyoumean::Cli;

fn options() -> Cli {
    Cli {
        search_term: Some("tset".to_string()),
        number: 5,
        clean_output: false,
        verbose: false,
        yank: false,
        lang: "en".to_string(),
        print_langs: false,
        update_langs: false,
        wordlist_url: "https://raw.githubusercontent.com/hisbaan/wordlists/main".to_string(),
    }
}

#[test]
fn a_plain_run_searches() {
    assert_eq!(options().task(), Task::Search);
}

#[test]
fn listing_languages_goes_before_everything() {
    let mut args = options();
    args.print_langs = true;
    assert_eq!(args.task(), Task::PrintLangs);
    args.update_langs = true;
    assert_eq!(args.task(), Task::PrintLangs);
}

#[test]
fn updating_languages_goes_before_a_search() {
    let mut args = options();
    args.update_langs = true;
    assert_eq!(args.task(), Task::UpdateLangs);
}

#[test]
fn a_term_on_the_command_line_is_used() {
    assert_eq!(options().term_source(true), TermSource::Argument);
    assert_eq!(options().term_source(false), TermSource::Argument);
}

#[test]
fn without_a_term_standard_input_is_read() {
    let mut args = options();
    args.search_term = None;
    assert_eq!(args.term_source(false), TermSource::StandardInput);
}

#[test]
fn without_a_term_and_without_input_the_term_is_missing() {
    let mut args = options();
    args.search_term = None;
    assert_eq!(args.term_source(true), TermSource::Missing);
}

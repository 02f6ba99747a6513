use astro_core::journal::{describe, Journal, Level, Line};

#[test]
fn a_pass_says_when_it_starts_and_how_it_ended() {
    let mut journal = Journal::new();
    let start = journal.start("reading");
    assert_eq!(start, Line { level: Level::Info, text: "reading starts".to_owned() });
    let outcome = describe(&Ok::<u8, String>(7));
    let end = journal.end("reading", Some(outcome.as_str()), "0.4");
    assert_eq!(end, vec![Line { level: Level::Info, text: "reading finished after 0.4s".to_owned() }]);

    // A failure is worth reading here too.
    journal.start("stacking");
    let outcome = describe(&Err::<u8, String>("no lights".to_owned()));
    let end = journal.end("stacking", Some(outcome.as_str()), "1.0");
    assert_eq!(end[0].text, "stacking failed: no lights after 1.0s");
}

#[test]
fn a_pass_starting_inside_another_says_so() {
    let mut journal = Journal::new();
    journal.start("outer");
    let inner = journal.start("inner");
    assert_eq!(inner, Line { level: Level::Warn, text: "inner starts while 1 already running".to_owned() });
    let end = journal.end("inner", Some("finished"), "0.1");
    assert_eq!(end.len(), 2);
    assert_eq!(end[1], Line { level: Level::Info, text: "still running: 1".to_owned() });
    let end = journal.end("outer", Some("finished"), "0.2");
    assert_eq!(end.len(), 1);
}

#[test]
fn a_pass_that_ended_without_an_outcome_says_that_instead() {
    let mut journal = Journal::new();
    journal.start("measuring");
    let end = journal.end("measuring", None, "2.5");
    assert_eq!(end, vec![Line { level: Level::Error, text: "measuring ended without an outcome after 2.5s".to_owned() }]);
}

use game2048::console_log_box::ConsoleLogBox;
use game2048::score::Score;

#[test]
fn score_starts_at_zero_and_accumulates() {
    let mut s = Score::new();
    assert_eq!(s.get(), 0);
    s.inc(4);
    assert_eq!(s.get(), 4);
    s.inc(0);
    assert_eq!(s.get(), 4);
    s.inc(2048);
    assert_eq!(s.get(), 2052);
}

#[test]
fn console_log_appends_in_order() {
    let mut log = ConsoleLogBox::new();
    assert_eq!(log.limit, 30);
    assert!(log.messages().is_empty());
    log.add_message(String::from("NEW GAME"));
    log.add_message(String::from("Game over"));
    assert_eq!(log.messages().len(), 2);
    assert_eq!(log.messages()[0], "NEW GAME");
    assert_eq!(log.messages()[1], "Game over");
}

use xuzzel::history::History;

#[test]
fn bump_and_score() {
    let mut history = History::new();
    assert_eq!(history.score("a"), 0);
    history.bump("a");
    history.bump("a");
    history.bump("b");
    assert_eq!(history.score("a"), 2);
    assert_eq!(history.score("b"), 1);
    assert_eq!(history.score("c"), 0);
}

#[test]
fn history_text_is_read_line_by_line() {
    let history = History::from_contents("a|3\nbad line\nb|x\nc|+7\r\na|5\n|2");
    assert_eq!(history.score("a"), 5);
    assert_eq!(history.score("b"), 0);
    assert_eq!(history.score("c"), 7);
    assert_eq!(history.score(""), 2);
    assert_eq!(history.score("bad line"), 0);
}

#[test]
fn history_text_orders_by_count_then_id() {
    let history = History::from_contents("zed|1\nalpha|1\nbeta|9");
    assert_eq!(history.to_contents(), "beta|9\nalpha|1\nzed|1");
    assert_eq!(History::new().to_contents(), "");
}

#[test]
fn history_text_round_trips() {
    let mut history = History::new();
    history.bump("firefox");
    history.bump("kitty");
    history.bump("firefox");
    let text = history.to_contents();
    let again = History::from_contents(&text);
    assert_eq!(again.score("firefox"), 2);
    assert_eq!(again.score("kitty"), 1);
    assert_eq!(again.to_contents(), text);
}

#[test]
fn scores_survive_writing_and_reading_back() {
    let mut history = History::from_contents("a|b|0\nkeep|0\nx|4");
    history.bump("fire fox");
    let again = History::from_contents(&history.to_contents());
    for id in ["a|b", "a", "keep", "x", "fire fox", "never"] {
        assert_eq!(again.score(id), history.score(id));
    }
}

#[test]
fn scores_count_the_bumps() {
    let mut history = History::new();
    let ids = ["a", "b", "a", "c", "a", "b"];
    for id in ids {
        history.bump(id);
    }
    assert_eq!(history.score("a"), 3);
    assert_eq!(history.score("b"), 2);
    assert_eq!(history.score("c"), 1);
    assert_eq!(history.score("d"), 0);
}

use xuzzel::config::{Config, MatchField, MatchMode};
use xuzzel::history::History;
use xuzzel::matcher::{
    exact_score, filter_entries, prefix_bonus, score_entry, subsequence_score, try_filter_entries,
};
use xuzzel::model::{Entry, EntrySource, SearchData};

fn entry(id: &str, label: &str, search_text: &str) -> Entry {
    let mut search = SearchData::default();
    search.filename = id.to_string();
    search.name = label.to_lowercase();
    search.exec_line = search_text.to_string();
    search.combined = search_text.to_string();
    Entry {
        id: id.to_string(),
        index: 0,
        label: label.to_string(),
        raw_text: label.to_string(),
        icon_name: None,
        icon: None,
        exec_line: None,
        path: None,
        terminal: false,
        working_dir: None,
        search,
        source: EntrySource::Dmenu,
    }
}

#[test]
fn prefix_match_beats_later_match() {
    let entries = vec![
        entry("a", "Firefox", "firefox browser"),
        entry("b", "LibreWolf", "browser firefox-compatible"),
    ];
    let history = History::default();
    let config = Config::default();
    let results = filter_entries(&entries, "fir", &history, &config);

    assert_eq!(results.first().map(|item| item.entry.id.as_str()), Some("a"));
}

#[test]
fn history_affects_ordering() {
    let entries = vec![entry("a", "Alpha", "alpha"), entry("b", "Alpine", "alpine")];
    let mut history = History::default();
    history.bump("b");
    history.bump("b");
    let config = Config::default();

    let results = filter_entries(&entries, "al", &history, &config);
    assert_eq!(results.first().map(|item| item.entry.id.as_str()), Some("b"));
}

#[test]
fn exact_mode_uses_selected_fields() {
    let mut config = Config::default();
    config.fields = vec![MatchField::Exec];
    config.match_mode = MatchMode::Exact;

    let entries = vec![
        entry("a", "Firefox", "firefox --new-window"),
        entry("b", "Terminal", "alacritty"),
    ];
    let history = History::default();
    let results = filter_entries(&entries, "new-win", &history, &config);
    assert_eq!(results.first().map(|item| item.entry.id.as_str()), Some("a"));
}

#[test]
fn exact_score_values() {
    assert_eq!(exact_score("firefox", "fire"), Some((180, vec![0, 1, 2, 3])));
    assert_eq!(exact_score("a firefox", "fox"), Some((144, vec![6, 7, 8])));
    // Positions are byte offsets: "é" takes two bytes.
    assert_eq!(exact_score("éa", "a"), Some((148, vec![2])));
    assert_eq!(exact_score("firefox", "chrome"), None);
}

#[test]
fn subsequence_score_values() {
    // f at 0: 10 + 20; i at 1: 10 + 15; r at 2: 10 + 15; complete: + 100.
    assert_eq!(subsequence_score("firefox", "fir"), Some((180, vec![0, 1, 2])));
    // f at 0 (30), x at 6: 10 - 6, then + 100.
    assert_eq!(subsequence_score("firefox", "fx"), Some((134, vec![0, 6])));
    assert_eq!(subsequence_score("firefox", ""), Some((0, vec![])));
    assert_eq!(subsequence_score("firefox", "xf"), None);
}

#[test]
fn prefix_bonus_values() {
    assert_eq!(prefix_bonus("firefox browser", "fire"), 120);
    assert_eq!(prefix_bonus("firefox browser", "brow"), 50);
    assert_eq!(prefix_bonus("firefox browser", "zzz"), 0);
    assert_eq!(prefix_bonus("firefox browser", ""), 0);
}

#[test]
fn filter_scores_and_requires_every_token() {
    let entries = vec![entry("a", "Firefox", "firefox browser"), entry("b", "Chrome", "chrome")];
    let config = Config::default();
    let history = History::default();
    let results = filter_entries(&entries, "  FIR  fox ", &history, &config);
    assert_eq!(results.len(), 1);
    assert_eq!(results[0].entry.id, "a");
    // "fir" 180 on the name + "fox" 104 (f at 0: 30, o at 5: 5, x: 25, +100)
    // on the name, 0 bonus (combined text does not hold "fir  fox"), minus 7 bytes.
    assert_eq!(results[0].score, 180 + 160 + 0 - 7);
    assert_eq!(results[0].matched_indices, vec![0, 1, 2, 0, 5, 6]);
}

#[test]
fn empty_query_keeps_everything_ranked_by_label() {
    let entries = vec![entry("b", "beta", "beta"), entry("a", "Alpha", "alpha"), entry("c", "Alpha", "other")];
    let results = filter_entries(&entries, "   ", &History::default(), &Config::default());
    let ids: Vec<&str> = results.iter().map(|r| r.entry.id.as_str()).collect();
    // Scores: 10 - label length; "beta" scores 6, both "Alpha" score 5 and keep their order.
    assert_eq!(ids, vec!["b", "a", "c"]);
    assert_eq!(results[0].score, 6);
}

#[test]
fn try_filter_reports_overflow() {
    let entries = vec![entry("a", "Alpha", "alpha")];
    let mut history = History::default();
    // A count above i64::MAX wraps to a negative i64 whose product by 50 overflows.
    let text = format!("a|{}", u64::MAX / 2 + 10);
    history = History::from_contents(&text);
    assert!(try_filter_entries(&entries, "al", &history, &Config::default()).is_none());
    let fine = History::from_contents("a|3");
    let ranked = try_filter_entries(&entries, "al", &fine, &Config::default()).unwrap();
    assert_eq!(ranked.len(), 1);
}

#[test]
fn one_more_launch_adds_fifty() {
    let entries = vec![entry("a", "Alpha", "alpha")];
    let config = Config::default();
    let mut history = History::default();
    let before = filter_entries(&entries, "al", &history, &config)[0].score;
    history.bump("a");
    let after = filter_entries(&entries, "al", &history, &config)[0].score;
    assert_eq!(after, before + 50);
    history.bump("zzz");
    assert_eq!(filter_entries(&entries, "al", &history, &config)[0].score, after);
}

#[test]
fn ranking_is_by_score_then_lowercased_label() {
    let entries = vec![
        entry("a", "beta", "xx"),
        entry("b", "Alpha", "xx"),
        entry("c", "gamma", "xx"),
        entry("d", "alpha", "xx"),
    ];
    let results = filter_entries(&entries, "", &History::default(), &Config::default());
    // Every label has 5 bytes but "beta" (4): it scores highest; the rest tie
    // on score and sort by lowercased label, equal labels in entry order.
    let ids: Vec<&str> = results.iter().map(|r| r.entry.id.as_str()).collect();
    assert_eq!(ids, vec!["a", "b", "d", "c"]);
    for pair in results.windows(2) {
        assert!(pair[0].score >= pair[1].score);
    }
}

#[test]
fn a_token_that_matches_nothing_drops_the_entry() {
    let entries = vec![entry("a", "Firefox", "firefox browser")];
    let config = Config::default();
    assert_eq!(filter_entries(&entries, "fire", &History::default(), &config).len(), 1);
    assert_eq!(filter_entries(&entries, "fire qq", &History::default(), &config).len(), 0);
}

#[test]
fn best_field_score_for_a_token() {
    let e = entry("web-browser", "Firefox", "firefox --new-window");
    let mut config = Config::default();
    // Filename "web-browser" has no "fox"; the name "firefox" scores 160.
    assert_eq!(score_entry(&e.search, "fox", &config), Some((160, vec![0, 5, 6])));
    assert_eq!(score_entry(&e.search, "zzz", &config), None);
    config.fields = vec![MatchField::Comment];
    assert_eq!(score_entry(&e.search, "fox", &config), None);
    config.fields = vec![MatchField::Exec, MatchField::Name];
    config.match_mode = MatchMode::Exact;
    // Exact "fox" at byte 4 of both: 146 each; the earlier field wins the tie.
    assert_eq!(score_entry(&e.search, "fox", &config), Some((146, vec![4, 5, 6])));
}

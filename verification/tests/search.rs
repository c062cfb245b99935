use delta_backend::search::{
    changed_lines, diff_by_lines, sorted_unique, split_label, BaseChoice, ChangeKind,
    ExitStatus, InputTextbox, Key, LineChange, Search,
};

fn sample_choice() -> BaseChoice {
    BaseChoice::new(vec![
        ("run.yaml".to_string(), 0, "a: 1\n".to_string()),
        ("run.yaml".to_string(), 1, "a: 1\nb: 2\n".to_string()),
        ("other.json".to_string(), 0, "c: 3\n".to_string()),
        ("run.yaml".to_string(), 12, "z: 0\n".to_string()),
    ])
}

fn sample_search() -> Search {
    let base = "a: 1\nb: 2\nc: 3\n".to_string();
    let deltas = vec![
        ("{\"a\":5}".to_string(), "a: 5\nb: 2\nc: 3\n".to_string()),
        ("{\"c\":7}".to_string(), "a: 1\nb: 2\nc: 7\n".to_string()),
        ("null".to_string(), base.clone()),
    ];
    Search::new(deltas, base)
}

#[test]
fn test_diff() {
    let line_a = "a\nb\nc\n";
    let line_b = "a\nc\nc\n";
    let out = diff_by_lines(line_a, line_b);
    assert_eq!(out, vec![1]);
}

#[test]
fn equal_texts_have_no_changed_line() {
    assert_eq!(diff_by_lines("a\nb\n", "a\nb\n"), Vec::<usize>::new());
    assert_eq!(diff_by_lines("", ""), Vec::<usize>::new());
}

#[test]
fn lines_that_are_only_in_the_other_text_are_not_counted() {
    assert_eq!(diff_by_lines("a\nc\n", "a\nb\nc\n"), Vec::<usize>::new());
    assert_eq!(diff_by_lines("", "a\n"), Vec::<usize>::new());
}

#[test]
fn every_line_of_a_text_that_is_replaced_is_counted() {
    assert_eq!(diff_by_lines("a\nb\nc\n", "x\ny\nz\n"), vec![0, 1, 2]);
    assert_eq!(diff_by_lines("a\nb\n", ""), vec![0, 1]);
}

#[test]
fn changed_lines_keeps_what_is_not_equal_and_has_a_place_in_the_first_text() {
    let changes = vec![
        LineChange { kind: ChangeKind::Equal, old_index: Some(0) },
        LineChange { kind: ChangeKind::Delete, old_index: Some(1) },
        LineChange { kind: ChangeKind::Insert, old_index: None },
        LineChange { kind: ChangeKind::Insert, old_index: Some(7) },
        LineChange { kind: ChangeKind::Equal, old_index: None },
        LineChange { kind: ChangeKind::Delete, old_index: None },
        LineChange { kind: ChangeKind::Delete, old_index: Some(3) },
    ];
    assert_eq!(changed_lines(&changes), vec![1, 7, 3]);
    assert_eq!(changed_lines(&Vec::new()), Vec::<usize>::new());
}

#[test]
fn the_input_line_takes_characters_and_gives_them_back() {
    let mut input = InputTextbox::new();
    assert_eq!(input.string, "");
    assert_eq!(input.exit, ExitStatus::NoExit);
    input.handle_key_events(Key::Backspace);
    assert_eq!(input.string, "");
    input.handle_key_events(Key::Char('a'));
    input.handle_key_events(Key::Char('\u{e9}'));
    input.handle_key_events(Key::Char('c'));
    assert_eq!(input.string, "a\u{e9}c");
    input.handle_key_events(Key::Backspace);
    input.handle_key_events(Key::Backspace);
    assert_eq!(input.string, "a");
    input.handle_key_events(Key::Other);
    assert_eq!(input.string, "a");
    assert_eq!(input.exit, ExitStatus::NoExit);
}

#[test]
fn escape_quits_and_enter_finishes() {
    let mut input = InputTextbox::new();
    input.handle_key_events(Key::Char('x'));
    input.handle_key_events(Key::Esc);
    assert_eq!(input.exit, ExitStatus::Quit);
    assert_eq!(input.string, "x");
    input.handle_key_events(Key::Enter);
    assert_eq!(input.exit, ExitStatus::Finish);
    input.handle_key_events(Key::Char('y'));
    assert_eq!(input.exit, ExitStatus::Finish);
    assert_eq!(input.string, "xy");
}

#[test]
fn sorted_unique_orders_the_numbers_and_drops_the_repeated() {
    assert_eq!(sorted_unique(&vec![5, 1, 3, 1, 5, 2]), vec![1, 2, 3, 5]);
    assert_eq!(sorted_unique(&vec![]), Vec::<u32>::new());
    assert_eq!(sorted_unique(&vec![7]), vec![7]);
    assert_eq!(sorted_unique(&vec![2, 2, 2]), vec![2]);
    assert_eq!(sorted_unique(&vec![u32::MAX, 0, u32::MAX]), vec![0, u32::MAX]);
    assert_eq!(sorted_unique(&vec![1, 2, 3]), vec![1, 2, 3]);
    assert_eq!(sorted_unique(&vec![3, 2, 1]), vec![1, 2, 3]);
}

#[test]
fn a_label_splits_into_name_and_version() {
    assert_eq!(split_label("run.yaml:0"), Some(("run.yaml".to_string(), 0)));
    assert_eq!(split_label("run.yaml:7"), Some(("run.yaml".to_string(), 7)));
    assert_eq!(split_label(":9"), Some(("".to_string(), 9)));
    assert_eq!(split_label("a:12"), Some(("a:".to_string(), 2)));
    assert_eq!(split_label("\u{e9}t\u{e9}:3"), Some(("\u{e9}t\u{e9}".to_string(), 3)));
}

#[test]
fn a_label_that_stands_for_nothing() {
    assert_eq!(split_label(""), None);
    assert_eq!(split_label("5"), None);
    assert_eq!(split_label("run.yaml"), None);
    assert_eq!(split_label("run.yaml:"), None);
    assert_eq!(split_label("run.yaml:x"), None);
    assert_eq!(split_label("a\u{e9}1"), None);
    assert_eq!(split_label("a:\u{0663}"), None);
}

#[test]
fn a_new_search_shows_the_base_and_no_delta() {
    let search = sample_search();
    assert_eq!(search.input_box.string, "");
    assert_eq!(search.input_box.exit, ExitStatus::NoExit);
    assert!(search.search_results.r.is_empty());
    assert!(search.search_results.column_matches.is_empty());
    assert_eq!(search.display_base.cfg_string, "a: 1\nb: 2\nc: 3\n");
    assert_eq!(search.display_base.title, "Base Config");
    assert!(search.display_base.highlight_lines.is_empty());
    assert_eq!(search.display_delta.cfg_string, "");
    assert_eq!(search.display_delta.title, "Changed Config");
    assert_eq!(search.labels(), vec!["{\"a\":5}", "{\"c\":7}", "null"]);
    assert_eq!(search.configs[0].changed, vec![0]);
    assert_eq!(search.configs[1].changed, vec![2]);
    assert_eq!(search.configs[2].changed, Vec::<usize>::new());
    assert_eq!(search.get_best_result(), "");
    assert_eq!(search.get_result_to_highlight(), None);
}

#[test]
fn update_shows_the_best_match() {
    let mut search = sample_search();
    search.update(vec![
        ("{\"a\":5}".to_string(), vec![2]),
        ("{\"c\":7}".to_string(), vec![2, 5]),
    ]);
    assert_eq!(search.search_results.r, vec!["{\"a\":5}", "{\"c\":7}"]);
    assert_eq!(search.search_results.column_matches, vec![vec![2], vec![2, 5]]);
    assert_eq!(search.display_delta.cfg_string, "a: 1\nb: 2\nc: 7\n");
    assert_eq!(search.display_delta.highlight_lines, vec![2]);
    assert_eq!(search.get_best_result(), "a: 1\nb: 2\nc: 7\n");
    assert_eq!(
        search.get_result_to_highlight(),
        Some(("a: 1\nb: 2\nc: 7\n".to_string(), vec![2]))
    );
    search.update(vec![("{\"a\":5}".to_string(), vec![])]);
    assert_eq!(search.display_delta.cfg_string, "a: 5\nb: 2\nc: 3\n");
    assert_eq!(search.display_delta.highlight_lines, vec![0]);
    search.update(vec![]);
    assert_eq!(search.display_delta.cfg_string, "");
    assert!(search.display_delta.highlight_lines.is_empty());
    search.update(vec![("unknown".to_string(), vec![1])]);
    assert_eq!(search.display_delta.cfg_string, "");
    assert_eq!(search.get_result_to_highlight(), None);
    assert_eq!(search.display_base.cfg_string, "a: 1\nb: 2\nc: 3\n");
}

#[test]
fn of_two_deltas_with_one_label_the_later_is_shown() {
    let base = "a: 1\n".to_string();
    let deltas = vec![
        ("same".to_string(), "a: 2\n".to_string()),
        ("same".to_string(), "a: 3\n".to_string()),
    ];
    let mut search = Search::new(deltas, base);
    search.update(vec![("same".to_string(), vec![])]);
    assert_eq!(search.get_best_result(), "a: 3\n");
}

#[test]
fn the_search_hands_back_the_best_match_when_it_is_finished() {
    let mut search = sample_search();
    search.update(vec![("{\"a\":5}".to_string(), vec![])]);
    assert_eq!(search.get_search_result(), "");
    search.handle_key_events(Key::Char('a'));
    assert_eq!(search.input_box.string, "a");
    assert_eq!(search.get_search_result(), "");
    search.handle_key_events(Key::Enter);
    assert_eq!(search.input_box.exit, ExitStatus::Finish);
    assert_eq!(search.get_search_result(), "a: 5\nb: 2\nc: 3\n");
    search.handle_key_events(Key::Esc);
    assert_eq!(search.input_box.exit, ExitStatus::Quit);
    assert_eq!(search.get_search_result(), "");
}

#[test]
fn a_finished_search_without_a_match_hands_back_nothing() {
    let mut search = sample_search();
    search.handle_key_events(Key::Enter);
    assert_eq!(search.get_search_result(), "");
}

#[test]
fn a_new_choice_of_bases_shows_nothing() {
    let choice = sample_choice();
    assert_eq!(choice.input_box.string, "");
    assert_eq!(choice.input_box.exit, ExitStatus::NoExit);
    assert!(choice.results.r.is_empty());
    assert!(choice.results.column_matches.is_empty());
    assert_eq!(choice.yaml_display.title, "");
    assert_eq!(choice.yaml_display.text, "");
    assert_eq!(choice.configs.len(), 4);
    assert_eq!(choice.configs[1].name, "run.yaml");
    assert_eq!(choice.configs[1].version, 1);
    assert_eq!(choice.configs[1].text, "a: 1\nb: 2\n");
    assert_eq!(choice.get_search_results(), Some(("".to_string(), 0)));
}

#[test]
fn the_choice_shows_the_base_of_the_best_match() {
    let mut choice = sample_choice();
    assert!(choice.update(vec![
        ("other.json:0".to_string(), vec![1]),
        ("run.yaml:1".to_string(), vec![0, 2]),
    ]));
    assert_eq!(choice.results.r, vec!["other.json:0", "run.yaml:1"]);
    assert_eq!(choice.results.column_matches, vec![vec![1], vec![0, 2]]);
    assert_eq!(choice.get_search_results(), Some(("run.yaml".to_string(), 1)));
    assert_eq!(choice.yaml_display.title, "run.yaml:1");
    assert_eq!(choice.yaml_display.text, "a: 1\nb: 2\n");
    assert!(choice.update(vec![("other.json:0".to_string(), vec![])]));
    assert_eq!(choice.yaml_display.title, "other.json:0");
    assert_eq!(choice.yaml_display.text, "c: 3\n");
}

#[test]
fn the_choice_shows_an_empty_base_where_none_is_meant() {
    let mut choice = sample_choice();
    assert!(choice.update(vec![]));
    assert_eq!(choice.yaml_display.title, ":0");
    assert_eq!(choice.yaml_display.text, "");
    assert!(choice.update(vec![("run.yaml:7".to_string(), vec![])]));
    assert_eq!(choice.yaml_display.title, "run.yaml:7");
    assert_eq!(choice.yaml_display.text, "");
    assert!(choice.update(vec![("run.yaml:12".to_string(), vec![])]));
    assert_eq!(choice.get_search_results(), Some(("run.yaml:".to_string(), 2)));
    assert_eq!(choice.yaml_display.title, "run.yaml::2");
    assert_eq!(choice.yaml_display.text, "");
}

#[test]
fn the_choice_keeps_what_it_shows_where_the_best_match_is_no_label() {
    let mut choice = sample_choice();
    assert!(choice.update(vec![("run.yaml:0".to_string(), vec![])]));
    assert!(!choice.update(vec![("run.yaml".to_string(), vec![3])]));
    assert_eq!(choice.results.r, vec!["run.yaml"]);
    assert_eq!(choice.results.column_matches, vec![vec![3]]);
    assert_eq!(choice.get_search_results(), None);
    assert_eq!(choice.yaml_display.title, "run.yaml:0");
    assert_eq!(choice.yaml_display.text, "a: 1\n");
}

#[test]
fn of_two_bases_with_one_name_and_version_the_later_is_shown() {
    let mut choice = BaseChoice::new(vec![
        ("a".to_string(), 3, "first\n".to_string()),
        ("a".to_string(), 3, "second\n".to_string()),
    ]);
    assert!(choice.update(vec![("a:3".to_string(), vec![])]));
    assert_eq!(choice.yaml_display.text, "second\n");
}

#[test]
fn the_choice_takes_keys_into_its_input_line() {
    let mut choice = sample_choice();
    choice.handle_key_events(Key::Char('r'));
    choice.handle_key_events(Key::Char('u'));
    choice.handle_key_events(Key::Backspace);
    assert_eq!(choice.input_box.string, "r");
    choice.handle_key_events(Key::Esc);
    assert_eq!(choice.input_box.exit, ExitStatus::Quit);
    assert_eq!(choice.configs.len(), 4);
}

use w2w::selector::parse_selection;
use w2w::selector::resolve_direct;
use w2w::selector::resolve_from_candidates;
use w2w::selector::resolve_random;
use w2w::selector::submit_choice;
use w2w::selector::Resolution;
use w2w::selector::SelectorError;

fn paris_list() -> Vec<String> {
    vec!["Paris".to_string(), "Paris (disambiguation)".to_string()]
}

#[test]
fn empty_candidate_list_short_circuits_to_no_results() {
    let list: Vec<String> = Vec::new();
    assert!(matches!(resolve_from_candidates(&list), Resolution::NoResults));
}

#[test]
fn singleton_candidate_list_resolves_without_a_prompt() {
    let list = vec!["OnlyPage".to_string()];
    match resolve_from_candidates(&list) {
        Resolution::Resolved(t) => assert_eq!(t, "OnlyPage"),
        _ => panic!("a single candidate must resolve by itself"),
    }
}

#[test]
fn multiple_candidates_need_an_operator_choice() {
    let list = paris_list();
    assert!(matches!(resolve_from_candidates(&list), Resolution::NeedsChoice));
}

#[test]
fn valid_choice_selects_the_one_based_entry() {
    let list = paris_list();
    assert_eq!(submit_choice(&list, b"2"), Some("Paris (disambiguation)".to_string()));
    assert_eq!(submit_choice(&list, b"1"), Some("Paris".to_string()));
}

#[test]
fn invalid_choices_are_rejected_until_a_valid_one_arrives() {
    let list = paris_list();
    // The operator types "abc", then "5", then "1": two rejections, then
    // the first entry.
    assert_eq!(submit_choice(&list, b"abc"), None);
    assert_eq!(submit_choice(&list, b"5"), None);
    assert_eq!(submit_choice(&list, b"1"), Some("Paris".to_string()));
}

#[test]
fn selection_accepts_exactly_the_closed_range() {
    let k = 3;
    assert_eq!(parse_selection(b"0", k), None);
    assert_eq!(parse_selection(b"1", k), Some(0));
    assert_eq!(parse_selection(b"2", k), Some(1));
    assert_eq!(parse_selection(b"3", k), Some(2));
    assert_eq!(parse_selection(b"4", k), None);
    assert_eq!(parse_selection(b"-1", k), None);
}

#[test]
fn selection_rejects_non_numeric_and_empty_input() {
    let k = 4;
    assert_eq!(parse_selection(b"", k), None);
    assert_eq!(parse_selection(b"   ", k), None);
    assert_eq!(parse_selection(b"two", k), None);
    assert_eq!(parse_selection(b"1a", k), None);
    assert_eq!(parse_selection(b"1.5", k), None);
    assert_eq!(parse_selection(b"+", k), None);
}

#[test]
fn selection_trims_whitespace_and_accepts_a_plus_sign() {
    let k = 9;
    assert_eq!(parse_selection(b" 7 \n", k), Some(6));
    assert_eq!(parse_selection(b"\t+3\r\n", k), Some(2));
    assert_eq!(parse_selection(b"007", k), Some(6));
}

#[test]
fn selection_rejects_values_beyond_any_machine_range() {
    let k = 2;
    assert_eq!(parse_selection(b"99999999999999999999999999999", k), None);
}

#[test]
fn direct_title_passes_through_unchanged() {
    assert_eq!(resolve_direct("Exact Title".to_string()), "Exact Title");
}

#[test]
fn random_pick_fails_only_on_an_empty_title() {
    assert_eq!(resolve_random("".to_string()), Err(SelectorError::NoResults));
    assert_eq!(resolve_random("Some Page".to_string()), Ok("Some Page".to_string()));
}

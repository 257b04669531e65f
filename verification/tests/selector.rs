use passpick::paths::key_from_path;
use passpick::state::Dir;
use passpick::state::State;

fn mk(keys: &[&str]) -> State {
    let mut s = State::new();
    s.load_keys(keys.iter().map(|k| k.to_string()).collect());
    s
}

fn chars(s: &str) -> Vec<char> {
    s.chars().collect()
}

#[test]
fn empty_query_shows_all_in_order() {
    let s = mk(&["a", "b", "c"]);
    assert_eq!(s.filtered_keys, vec!["a".to_string(), "b".to_string(), "c".to_string()]);
    assert_eq!(s.selected, Some(0));
}

#[test]
fn query_filters_and_keeps_tied_order() {
    let mut s = mk(&["apple/login", "banana/pin", "apple/bank"]);
    s.enter_char('a');
    s.enter_char('p');
    assert_eq!(s.input.as_str(), "ap");
    assert!(s.filtered_keys.contains(&"apple/login".to_string()));
    assert!(s.filtered_keys.contains(&"apple/bank".to_string()));
    // "ap" is also a (non-contiguous) subsequence of "banana/pin", so the
    // matcher keeps it, but its scattered match scores below the two
    // contiguous prefix matches, which tie and keep their original order.
    assert_eq!(
        s.filtered_keys,
        vec![
            "apple/login".to_string(),
            "apple/bank".to_string(),
            "banana/pin".to_string(),
        ]
    );
}

#[test]
fn duplicate_candidates_are_kept_in_order() {
    let mut s = mk(&["a", "b", "a"]);
    assert_eq!(
        s.filtered_keys,
        vec!["a".to_string(), "b".to_string(), "a".to_string()]
    );
    s.enter_char('a');
    assert_eq!(s.filtered_keys, vec!["a".to_string(), "a".to_string()]);
}

#[test]
fn higher_score_ranks_first() {
    let mut s = mk(&["xaxpx", "ap"]);
    s.enter_char('a');
    s.enter_char('p');
    assert_eq!(s.filtered_keys.len(), 2);
    assert_eq!(s.filtered_keys[0].as_str(), "ap");
    assert_eq!(s.filtered_keys[1].as_str(), "xaxpx");
}

#[test]
fn no_match_gives_empty_list() {
    let mut s = mk(&["apple"]);
    s.enter_char('z');
    assert!(s.filtered_keys.is_empty());
    assert_eq!(s.selected, Some(0));
    assert_eq!(s.confirm(), None);
}

#[test]
fn empty_candidate_set_never_selects() {
    let mut s = mk(&[]);
    assert!(s.filtered_keys.is_empty());
    assert_eq!(s.confirm(), None);
    s.enter_char('q');
    assert!(s.filtered_keys.is_empty());
    assert_eq!(s.confirm(), None);
    s.move_index(Dir::Down);
    assert_eq!(s.selected, Some(0));
    assert_eq!(s.confirm(), None);
    s.move_index(Dir::Up);
    assert_eq!(s.selected, Some(0));
    assert_eq!(s.confirm(), None);
}

#[test]
fn wraparound_navigation() {
    let mut s = mk(&["a", "b", "c"]);
    assert_eq!(s.selected, Some(0));
    s.move_index(Dir::Up);
    assert_eq!(s.selected, Some(2));
    s.move_index(Dir::Down);
    assert_eq!(s.selected, Some(0));
    s.move_index(Dir::Down);
    assert_eq!(s.selected, Some(1));
    s.move_index(Dir::Down);
    assert_eq!(s.selected, Some(2));
    s.move_index(Dir::Down);
    assert_eq!(s.selected, Some(0));
}

#[test]
fn down_then_up_returns_everywhere() {
    for start in 0..3 {
        let mut s = mk(&["a", "b", "c"]);
        for _ in 0..start {
            s.move_index(Dir::Down);
        }
        assert_eq!(s.selected, Some(start));
        s.move_index(Dir::Down);
        s.move_index(Dir::Up);
        assert_eq!(s.selected, Some(start));
        s.move_index(Dir::Up);
        s.move_index(Dir::Down);
        assert_eq!(s.selected, Some(start));
    }
}

#[test]
fn shrinking_list_clamps_cursor() {
    let mut s = mk(&["ab", "ac", "b"]);
    assert_eq!(s.filtered_keys.len(), 3);
    s.move_index(Dir::Down);
    s.move_index(Dir::Down);
    assert_eq!(s.selected, Some(2));
    s.enter_char('a');
    assert_eq!(s.filtered_keys.len(), 2);
    assert_eq!(s.selected, Some(1));
}

#[test]
fn unshrunk_cursor_stays_put() {
    let mut s = mk(&["ab", "ac", "b"]);
    s.move_index(Dir::Down);
    assert_eq!(s.selected, Some(1));
    s.enter_char('a');
    assert_eq!(s.filtered_keys.len(), 2);
    assert_eq!(s.selected, Some(1));
}

#[test]
fn delete_on_empty_query_is_noop() {
    let mut s = mk(&["a", "b"]);
    s.move_index(Dir::Down);
    let before_filtered = s.filtered_keys.clone();
    let before_selected = s.selected;
    s.delete_char();
    assert_eq!(s.input.as_str(), "");
    assert_eq!(s.filtered_keys, before_filtered);
    assert_eq!(s.selected, before_selected);
}

#[test]
fn delete_restores_full_list() {
    let mut s = mk(&["apple", "pear"]);
    s.enter_char('z');
    assert!(s.filtered_keys.is_empty());
    s.delete_char();
    assert_eq!(s.input.as_str(), "");
    assert_eq!(s.filtered_keys, vec!["apple".to_string(), "pear".to_string()]);
    assert_eq!(s.selected, Some(0));
}

#[test]
fn confirm_reads_cursor_element() {
    let mut s = mk(&["a", "b", "c"]);
    s.move_index(Dir::Down);
    assert_eq!(s.confirm(), Some("b".to_string()));
    s.move_index(Dir::Down);
    assert_eq!(s.confirm(), Some("c".to_string()));
}

#[test]
fn key_from_path_strips_prefix_and_suffix() {
    let r = key_from_path(&chars("store/web/mail.gpg"), &chars("store/"));
    assert_eq!(r, Some(chars("web/mail")));
}

#[test]
fn key_from_path_accepts_empty_key() {
    let r = key_from_path(&chars("store/.gpg"), &chars("store/"));
    assert_eq!(r, Some(Vec::new()));
}

#[test]
fn key_from_path_rejects_wrong_suffix() {
    assert_eq!(key_from_path(&chars("store/web/mail.txt"), &chars("store/")), None);
    assert_eq!(key_from_path(&chars("store/web"), &chars("store/")), None);
}

#[test]
fn key_from_path_rejects_wrong_prefix() {
    assert_eq!(key_from_path(&chars("other/mail.gpg"), &chars("store/")), None);
}

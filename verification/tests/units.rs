use agent_directory::event::{exactly_one_tag_value, is_newer_head, Event};
use agent_directory::policy::{
    content_state, parse_respond_to, DirectoryContent, DirectoryRespondTo, DirectoryState,
};
use agent_directory::pubkey::canonical_public_key;
use agent_directory::text::{insert_sorted, str_equal, str_less, trimmed};

fn tagged(tags: &[&[&str]]) -> Event {
    Event {
        pubkey: "author".to_string(),
        created_at: 1,
        id: [0; 32],
        tags: tags.iter().map(|t| t.iter().map(|v| v.to_string()).collect()).collect(),
    }
}

fn content(name: Option<&str>, policy: Option<&str>, allowlist: Option<Vec<&str>>) -> DirectoryContent {
    DirectoryContent {
        name: name.map(|n| n.to_string()),
        respond_to: policy.map(|p| p.to_string()),
        respond_to_allowlist: allowlist.map(|l| l.iter().map(|v| v.to_string()).collect()),
    }
}

#[test]
fn complete_content_resolves() {
    let (name, policy, allowlist, state) =
        content_state(&content(Some(" Neo\t"), Some("owner-only"), Some(vec![])));
    assert_eq!(name.as_deref(), Some("Neo"));
    assert_eq!(policy, Some(DirectoryRespondTo::OwnerOnly));
    assert!(allowlist.is_empty());
    assert_eq!(state, DirectoryState::Resolved);
}

#[test]
fn blank_or_missing_name_is_incomplete() {
    let (name, _, _, state) = content_state(&content(Some(" \u{3000} "), Some("anyone"), Some(vec![])));
    assert_eq!(name, None);
    assert_eq!(state, DirectoryState::Incomplete);
    let (name, _, _, state) = content_state(&content(None, Some("anyone"), Some(vec![])));
    assert_eq!(name, None);
    assert_eq!(state, DirectoryState::Incomplete);
}

#[test]
fn unknown_policy_is_incomplete() {
    let (_, policy, _, state) = content_state(&content(Some("Neo"), Some("Anyone"), Some(vec![])));
    assert_eq!(policy, None);
    assert_eq!(state, DirectoryState::Incomplete);
    let (_, policy, _, state) = content_state(&content(Some("Neo"), None, Some(vec![])));
    assert_eq!(policy, None);
    assert_eq!(state, DirectoryState::Incomplete);
}

#[test]
fn refused_allowlist_is_incomplete_and_empty() {
    let (_, policy, allowlist, state) = content_state(&content(Some("Neo"), Some("nobody"), None));
    assert_eq!(policy, Some(DirectoryRespondTo::Nobody));
    assert!(allowlist.is_empty());
    assert_eq!(state, DirectoryState::Incomplete);
}

#[test]
fn allowlist_policy_needs_entries() {
    let (_, _, _, state) = content_state(&content(Some("Neo"), Some("allowlist"), Some(vec![])));
    assert_eq!(state, DirectoryState::Incomplete);
    let (_, policy, allowlist, state) =
        content_state(&content(Some("Neo"), Some("allowlist"), Some(vec!["x"])));
    assert_eq!(policy, Some(DirectoryRespondTo::Allowlist));
    assert_eq!(allowlist, vec!["x"]);
    assert_eq!(state, DirectoryState::Resolved);
}

#[test]
fn policies_parse_by_exact_spelling() {
    assert_eq!(parse_respond_to("owner-only"), Some(DirectoryRespondTo::OwnerOnly));
    assert_eq!(parse_respond_to("allowlist"), Some(DirectoryRespondTo::Allowlist));
    assert_eq!(parse_respond_to("anyone"), Some(DirectoryRespondTo::Anyone));
    assert_eq!(parse_respond_to("nobody"), Some(DirectoryRespondTo::Nobody));
    assert_eq!(parse_respond_to("owner_only"), None);
    assert_eq!(parse_respond_to(" anyone"), None);
    assert_eq!(parse_respond_to(""), None);
}

#[test]
fn default_state_is_incomplete() {
    assert_eq!(DirectoryState::default(), DirectoryState::Incomplete);
}

#[test]
fn single_tag_value_is_found() {
    let e = tagged(&[&["p", "x"], &["d", "value"], &["d"]]);
    assert_eq!(exactly_one_tag_value(&e, "d").as_deref(), Some("value"));
    assert_eq!(exactly_one_tag_value(&e, "p").as_deref(), Some("x"));
    assert_eq!(exactly_one_tag_value(&e, "e"), None);
}

#[test]
fn repeated_or_blank_tag_values_are_refused() {
    let twice = tagged(&[&["d", "a"], &["d", "a"]]);
    assert_eq!(exactly_one_tag_value(&twice, "d"), None);
    let blank = tagged(&[&["d", " \n "]]);
    assert_eq!(exactly_one_tag_value(&blank, "d"), None);
    let padded = tagged(&[&["d", " a "]]);
    assert_eq!(exactly_one_tag_value(&padded, "d").as_deref(), Some(" a "));
}

#[test]
fn newer_head_prefers_later_then_lower_id() {
    let low = [1u8; 32];
    let mut high = [1u8; 32];
    high[31] = 2;
    assert!(is_newer_head(2, &high, 1, &low));
    assert!(!is_newer_head(1, &low, 2, &high));
    assert!(is_newer_head(5, &low, 5, &high));
    assert!(!is_newer_head(5, &high, 5, &low));
    assert!(!is_newer_head(5, &low, 5, &low));
}

#[test]
fn canonical_key_lowercases_and_checks_hex() {
    let upper = "A".repeat(64);
    assert_eq!(canonical_public_key(&upper), Some("a".repeat(64)));
    let mixed = format!("{}{}", "0f".repeat(31), "Ff");
    assert_eq!(canonical_public_key(&mixed), Some(format!("{}ff", "0f".repeat(31))));
    assert_eq!(canonical_public_key(&"a".repeat(63)), None);
    assert_eq!(canonical_public_key(&"a".repeat(65)), None);
    assert_eq!(canonical_public_key(&format!("{}g", "a".repeat(63))), None);
    assert_eq!(canonical_public_key(&format!("{}{}", "b".repeat(64), "CD")), Some("b".repeat(64)));
    assert_eq!(canonical_public_key(""), None);
}

#[test]
fn trimming_removes_unicode_whitespace_only() {
    assert_eq!(trimmed("  a b \t\n"), "a b");
    assert_eq!(trimmed("\u{3000}\u{a0}x\u{2029}"), "x");
    assert_eq!(trimmed("\u{200b}x"), "\u{200b}x");
    assert_eq!(trimmed("   "), "");
    assert_eq!(trimmed(""), "");
}

#[test]
fn string_order_is_code_point_order() {
    assert!(str_less("a", "b"));
    assert!(str_less("ab", "abc"));
    assert!(!str_less("abc", "ab"));
    assert!(!str_less("b", "b"));
    assert!(str_less("Z", "a"));
    assert!(str_less("\u{7f}", "\u{e9}"));
    assert!(str_equal("é", "é"));
    assert!(!str_equal("e", "é"));
}

#[test]
fn sorted_insertion_keeps_order_and_drops_repeats() {
    let mut v: Vec<String> = Vec::new();
    for s in ["m", "c", "x", "c", "a", "m"] {
        insert_sorted(&mut v, s.to_string());
    }
    assert_eq!(v, vec!["a", "c", "m", "x"]);
}

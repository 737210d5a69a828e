use email_dehash::config::{clamp_max_length, DICTIONARY, MAX_USERNAME_LENGTH};
use email_dehash::search::{
    candidate_email, candidate_matches, check_digest, check_email, format_match, is_target, search,
    Match,
};

const AB_AT_X: &str = "211f828b5a531d9c0886467e1b277d630e636157e86b4eaf5169b4ac3808ff96";
const AB_AT_Y: &str = "2b00f3bb9e90b003b4a1329624fe63a54521fe498bc36798960343bb3810cb0d";
const B_AT_Y: &str = "65708abb24edf4656f7f84b0662e8c89314bf252e9b1f200599ff119dfa6c554";

fn strings(items: &[&str]) -> Vec<String> {
    items.iter().map(|s| s.to_string()).collect()
}

fn pairs(found: &[Match]) -> Vec<(String, String)> {
    found.iter().map(|m| (m.email.clone(), m.digest.clone())).collect()
}

#[test]
fn email_joins_username_and_domain() {
    assert_eq!(candidate_email("alice", "example.com"), "alice@example.com");
    assert_eq!(candidate_email("", ""), "@");
}

#[test]
fn target_test_is_exact() {
    let targets = strings(&["aa", "bb"]);
    assert!(is_target(&"bb".to_string(), &targets));
    assert!(!is_target(&"BB".to_string(), &targets));
    assert!(!is_target(&"b".to_string(), &targets));
    assert!(!is_target(&"bb".to_string(), &Vec::new()));
}

#[test]
fn check_digest_encodes_then_compares() {
    let targets = strings(&["0a10"]);
    let hit = check_digest("who@x.com".to_string(), &[0x0a, 0x10], &targets).unwrap();
    assert_eq!(hit.email, "who@x.com");
    assert_eq!(hit.digest, "0a10");
    assert!(check_digest("who@x.com".to_string(), &[0x10, 0x0a], &targets).is_none());
}

#[test]
fn check_digest_writes_high_half_first_in_lower_case() {
    let bytes = [1, 2, 3, 15, 16, 0x00, 0xff, 0xab, 0x9f];
    let hit = check_digest(String::new(), &bytes, &strings(&["0102030f1000ffab9f"])).unwrap();
    assert_eq!(hit.digest, "0102030f1000ffab9f");
    assert!(check_digest(String::new(), &bytes, &strings(&["0102030F1000FFAB9F"])).is_none());
    assert_eq!(check_digest(String::new(), &[], &strings(&[""])).unwrap().digest, "");
}

#[test]
fn check_email_finds_a_target() {
    let hit = check_email("ab@x.com".to_string(), &strings(&[AB_AT_X])).unwrap();
    assert_eq!(hit.email, "ab@x.com");
    assert_eq!(hit.digest, AB_AT_X);
    assert!(check_email("ab@x.com".to_string(), &strings(&[AB_AT_Y])).is_none());
}

#[test]
fn candidate_matches_follow_the_domains() {
    let domains = strings(&["y.org", "x.com", "z.net"]);
    let targets = strings(&[AB_AT_X, AB_AT_Y]);
    assert_eq!(
        pairs(&candidate_matches("ab", &domains, &targets)),
        vec![
            ("ab@y.org".to_string(), AB_AT_Y.to_string()),
            ("ab@x.com".to_string(), AB_AT_X.to_string()),
        ]
    );
    assert!(candidate_matches("ba", &domains, &targets).is_empty());
}

#[test]
fn search_finds_exactly_the_hashed_address() {
    let found = search(2, "ab", &strings(&["x.com"]), &strings(&[AB_AT_X]));
    assert_eq!(pairs(&found), vec![("ab@x.com".to_string(), AB_AT_X.to_string())]);
    let line = format_match(&found[0], " -> ");
    assert!(line.contains("ab@x.com"));
    assert!(line.contains(AB_AT_X));
    for other in ["a@x.com", "b@x.com", "aa@x.com", "ba@x.com", "bb@x.com"] {
        assert!(found.iter().all(|m| m.email != other));
    }
}

#[test]
fn search_reports_matches_in_enumeration_order() {
    let found = search(
        2,
        "ab",
        &strings(&["x.com", "y.org"]),
        &strings(&[AB_AT_Y, AB_AT_X, B_AT_Y]),
    );
    assert_eq!(
        pairs(&found),
        vec![
            ("b@y.org".to_string(), B_AT_Y.to_string()),
            ("ab@x.com".to_string(), AB_AT_X.to_string()),
            ("ab@y.org".to_string(), AB_AT_Y.to_string()),
        ]
    );
}

#[test]
fn upper_case_target_never_matches() {
    let upper = AB_AT_X.to_uppercase();
    assert_ne!(upper, AB_AT_X);
    assert!(search(2, "ab", &strings(&["x.com"]), &vec![upper]).is_empty());
}

#[test]
fn empty_inputs_yield_no_output() {
    assert!(search(2, "ab", &Vec::new(), &strings(&[AB_AT_X])).is_empty());
    assert!(search(2, "ab", &strings(&["x.com"]), &Vec::new()).is_empty());
    assert!(search(0, "ab", &strings(&["x.com"]), &strings(&[AB_AT_X])).is_empty());
    assert!(search(2, "", &strings(&["x.com"]), &strings(&[AB_AT_X])).is_empty());
}

#[test]
fn too_short_a_search_misses_the_address() {
    assert!(search(1, "ab", &strings(&["x.com"]), &strings(&[AB_AT_X])).is_empty());
}

#[test]
fn length_is_clamped_to_sixty_four() {
    assert_eq!(MAX_USERNAME_LENGTH, 64);
    assert_eq!(clamp_max_length(200), 64);
    assert_eq!(clamp_max_length(200), clamp_max_length(64));
    assert_eq!(clamp_max_length(255), 64);
    assert_eq!(clamp_max_length(65), 64);
    assert_eq!(clamp_max_length(63), 63);
    assert_eq!(clamp_max_length(0), 0);
}

#[test]
fn clamped_search_equals_search_at_the_limit() {
    let domains = strings(&["x.com"]);
    let longest = "08a6edf6c210436fca4fed869d0f8cb7ce40507d8329958342f5fd38c0bb0c3d";
    let short = "34bef129abc51795f8e0ca2d29546c8043383dcf607c4f3f14bb9b71e0f9e93b";
    let targets = strings(&[longest, short]);
    let at_limit = search(64, "x", &domains, &targets);
    let beyond = search(200, "x", &domains, &targets);
    assert_eq!(pairs(&at_limit), pairs(&beyond));
    assert_eq!(
        pairs(&beyond),
        vec![
            ("xxx@x.com".to_string(), short.to_string()),
            (format!("{}@x.com", "x".repeat(64)), longest.to_string()),
        ]
    );
}

#[test]
fn match_line_has_address_separator_digest() {
    let found = Match { email: "alice@example.com".to_string(), digest: "5e88".to_string() };
    assert_eq!(format_match(&found, " -> "), "alice@example.com -> 5e88");
    assert_eq!(format_match(&found, ""), "alice@example.com5e88");
}

#[test]
fn default_dictionary_has_sixty_five_characters() {
    assert_eq!(DICTIONARY.chars().count(), 65);
    assert!(DICTIONARY.starts_with("abc"));
    assert!(DICTIONARY.ends_with("_.+"));
}

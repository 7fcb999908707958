use bang_search::config::{default_config, BangDetails, BangTable, Config};
use bang_search::resolver::RedirectDecision;

fn config_with_private() -> Config {
    let mut bangs = BangTable::new();
    let mut private_bangs = BangTable::new();

    bangs.insert(
        "!g".to_string(),
        BangDetails {
            url: "https://www.google.com/search?q={searchTerms}".to_string(),
            name: "Google".to_string(),
            icon: "google".to_string(),
        },
    );
    private_bangs.insert(
        "!private".to_string(),
        BangDetails {
            url: "https://private.example.com/search?q={searchTerms}".to_string(),
            name: "Private Search".to_string(),
            icon: "private".to_string(),
        },
    );
    Config { bangs, private_bangs, auth_token: "secret_token".to_string() }
}

fn matched_url(decision: RedirectDecision) -> String {
    match decision {
        RedirectDecision::Matched { url, .. } => url,
        _ => panic!("expected a matched bang"),
    }
}

fn default_search_url(decision: RedirectDecision) -> String {
    match decision {
        RedirectDecision::DefaultSearch { url } => url,
        _ => panic!("expected a default search"),
    }
}

#[test]
fn test_private_bang_with_auth() {
    // Both tokens match - should work
    let config = config_with_private();
    let decision = config.resolve(Some("!private test search"), Some(&"secret_token".to_string()));
    assert_eq!(
        matched_url(decision),
        "https://private.example.com/search?q=test%20search"
    );
}

#[test]
fn test_private_bang_without_auth() {
    // Tokens don't match - should not access private bang; the full query
    // falls through to the default search engine.
    let config = config_with_private();
    let decision = config.resolve(Some("!private test search"), Some(&"wrong_token".to_string()));
    assert_eq!(
        default_search_url(decision),
        "https://www.google.com/search?q=%21private%20test%20search"
    );
}

#[test]
fn test_public_bang_with_auth() {
    // Public bang with matching tokens
    let config = config_with_private();
    let decision = config.resolve(Some("!g test search"), Some(&"secret_token".to_string()));
    assert_eq!(matched_url(decision), "https://www.google.com/search?q=test%20search");
}

#[test]
fn test_public_bang_without_auth() {
    // Public bangs should work without auth
    let config = config_with_private();
    let decision = config.resolve(Some("!g test search"), Some(&"wrong_token".to_string()));
    assert_eq!(matched_url(decision), "https://www.google.com/search?q=test%20search");
}

#[test]
fn test_search_with_no_query() {
    let config = default_config();
    let decision = config.resolve(None, None);
    assert!(matches!(decision, RedirectDecision::NoQuery));
}

#[test]
fn test_search_with_google_bang() {
    let config = default_config();
    let decision = config.resolve(Some("!g rust programming"), None);
    assert_eq!(matched_url(decision), "https://www.google.com/search?q=rust%20programming");
}

#[test]
fn test_search_with_duckduckgo_bang() {
    let config = default_config();
    let decision = config.resolve(Some("!ddg rust programming"), None);
    assert_eq!(matched_url(decision), "https://duckduckgo.com/?q=rust%20programming");
}

#[test]
fn test_search_with_unknown_bang() {
    // Should fall through to the default engine with the full original query.
    let config = default_config();
    let decision = config.resolve(Some("!unknown rust programming"), None);
    assert_eq!(
        default_search_url(decision),
        "https://www.google.com/search?q=%21unknown%20rust%20programming"
    );
}

#[test]
fn test_search_without_bang() {
    let config = default_config();
    let decision = config.resolve(Some("rust programming"), None);
    assert_eq!(
        default_search_url(decision),
        "https://www.google.com/search?q=rust%20programming"
    );
}

#[test]
fn test_matched_decision_carries_bang_and_definition() {
    let config = default_config();
    let decision = config.resolve(Some("!yt cat videos"), None);
    match decision {
        RedirectDecision::Matched { url, bang, definition } => {
            assert_eq!(url, "https://www.youtube.com/results?search_query=cat%20videos");
            assert_eq!(bang, "!yt");
            assert_eq!(definition.name, "YouTube");
            assert_eq!(definition.icon, "youtube");
        },
        _ => panic!("expected a matched bang"),
    }
}

#[test]
fn test_resolution_is_deterministic() {
    // The same (token, remainder) pair always yields the same URL.
    let config = default_config();
    let first = matched_url(config.resolve(Some("!gh verus lang"), None));
    let second = matched_url(config.resolve(Some("!gh verus lang"), None));
    assert_eq!(first, second);
    assert_eq!(first, "https://github.com/search?q=verus%20lang");
}

#[test]
fn test_template_without_placeholder_is_unchanged() {
    // A template lacking the marker is legal and is never substituted.
    let mut bangs = BangTable::new();
    bangs.insert(
        "!fixed".to_string(),
        BangDetails {
            url: "https://example.com/landing".to_string(),
            name: "Fixed".to_string(),
            icon: "".to_string(),
        },
    );
    let config = Config { bangs, private_bangs: BangTable::new(), auth_token: String::new() };
    let decision = config.resolve(Some("!fixed anything at all"), None);
    assert_eq!(matched_url(decision), "https://example.com/landing");
}

#[test]
fn test_special_characters_are_percent_encoded() {
    let config = default_config();
    let decision = config.resolve(Some("!g a&b=c?d"), None);
    assert_eq!(
        matched_url(decision),
        "https://www.google.com/search?q=a%26b%3Dc%3Fd"
    );
}

#[test]
fn test_describe_known_bang() {
    let config = default_config();
    let info = config.describe(Some("!g test query"), None);
    assert_eq!(info.query, "test query");
    assert_eq!(info.bang.as_deref(), Some("!g"));
    assert_eq!(info.bang_name.as_deref(), Some("Google"));
    assert_eq!(info.bang_icon.as_deref(), Some("google"));
}

#[test]
fn test_describe_unknown_bang() {
    let config = default_config();
    let info = config.describe(Some("!nope test query"), None);
    assert_eq!(info.query, "test query");
    assert_eq!(info.bang, None);
    assert_eq!(info.bang_name, None);
    assert_eq!(info.bang_icon, None);
}

#[test]
fn test_describe_private_bang_authorization() {
    let config = config_with_private();
    let with_auth = config.describe(Some("!private files"), Some(&"secret_token".to_string()));
    assert_eq!(with_auth.bang.as_deref(), Some("!private"));
    assert_eq!(with_auth.bang_name.as_deref(), Some("Private Search"));
    let without_auth = config.describe(Some("!private files"), None);
    assert_eq!(without_auth.bang, None);
    assert_eq!(without_auth.bang_name, None);
    assert_eq!(without_auth.query, "files");
}

#[test]
fn test_describe_absent_query() {
    let config = default_config();
    let info = config.describe(None, None);
    assert_eq!(info.query, "");
    assert_eq!(info.bang, None);
}

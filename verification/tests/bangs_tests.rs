use bang_search::bangs::extract_bang;
use bang_search::config::default_config;

#[test]
fn test_extract_bang() {
    // Test with bang at beginning
    let (bang, term) = extract_bang("!ddg search term");
    assert_eq!(bang.as_deref(), Some("!ddg"));
    assert_eq!(term, "search term");

    // Test with no bang
    let (bang, term) = extract_bang("just a search");
    assert_eq!(bang, None);
    assert_eq!(term, "just a search");

    // Test with just a bang
    let (bang, term) = extract_bang("!g");
    assert_eq!(bang.as_deref(), Some("!g"));
    assert_eq!(term, "");

    // Test with bang but no space
    let (bang, term) = extract_bang("!ddgsearchterm");
    assert_eq!(bang.as_deref(), Some("!ddgsearchterm"));
    assert_eq!(term, "");

    // Test with multiple spaces
    let (bang, term) = extract_bang("!ddg  multiple  spaces");
    assert_eq!(bang.as_deref(), Some("!ddg"));
    assert_eq!(term, " multiple  spaces");
}

#[test]
fn test_config_bangs() {
    let config = default_config();

    // Test that we have the expected bangs
    assert!(config.bangs.contains_key("!g"));
    assert!(config.bangs.contains_key("!ddg"));
    assert!(config.bangs.contains_key("!yt"));
    assert!(config.bangs.contains_key("!gh"));
    assert!(config.bangs.contains_key("!w"));
    assert!(config.bangs.contains_key("!maps"));

    // Test the URL templates
    assert_eq!(
        config.bangs.get("!g").unwrap().url,
        "https://www.google.com/search?q={searchTerms}"
    );
    assert_eq!(
        config.bangs.get("!ddg").unwrap().url,
        "https://duckduckgo.com/?q={searchTerms}"
    );

    // Test that the URL templates contain the placeholder
    for i in 0..config.bangs.len() {
        let entry = config.bangs.entry_at(i);
        assert!(
            entry.1.url.contains("{searchTerms}"),
            "URL template should contain {{searchTerms}} placeholder"
        );
    }
}

#[test]
fn test_extract_bang_beginning() {
    // Test bangs at the beginning
    let (bang, term) = extract_bang("!g search term");
    assert_eq!(bang.as_deref(), Some("!g"));
    assert_eq!(term, "search term");
    let (bang, term) = extract_bang("!ddg another search");
    assert_eq!(bang.as_deref(), Some("!ddg"));
    assert_eq!(term, "another search");
    let (bang, term) = extract_bang("!w");
    assert_eq!(bang.as_deref(), Some("!w"));
    assert_eq!(term, "");
}

#[test]
fn test_extract_bang_end() {
    // Test bangs at the end
    let (bang, term) = extract_bang("search term !g");
    assert_eq!(bang.as_deref(), Some("!g"));
    assert_eq!(term, "search term");
    let (bang, term) = extract_bang("another search !ddg");
    assert_eq!(bang.as_deref(), Some("!ddg"));
    assert_eq!(term, "another search");
}

#[test]
fn test_extract_bang_with_whitespace() {
    // Test with extra whitespace
    let (bang, term) = extract_bang("  !g search term  ");
    assert_eq!(bang.as_deref(), Some("!g"));
    assert_eq!(term, "search term");
    let (bang, term) = extract_bang("  search term !g  ");
    assert_eq!(bang.as_deref(), Some("!g"));
    assert_eq!(term, "search term");
}

#[test]
fn test_no_bang() {
    // Test with no bang
    let (bang, term) = extract_bang("just a search");
    assert_eq!(bang, None);
    assert_eq!(term, "just a search");
    let (bang, term) = extract_bang("");
    assert_eq!(bang, None);
    assert_eq!(term, "");
    let (bang, term) = extract_bang("   ");
    assert_eq!(bang, None);
    assert_eq!(term, "");
}

#[test]
fn test_invalid_bang_patterns() {
    // Test with invalid bang patterns
    let (bang, term) = extract_bang("search with ! in middle");
    assert_eq!(bang, None);
    assert_eq!(term, "search with ! in middle");
    let (bang, term) = extract_bang("g!");
    assert_eq!(bang, None);
    assert_eq!(term, "g!");
}

#[test]
fn test_prefix_bang_wins_over_suffix() {
    // A query that looks like both forms keeps the prefix bang.
    let (bang, term) = extract_bang("!a b !c");
    assert_eq!(bang.as_deref(), Some("!a"));
    assert_eq!(term, "b !c");
}

#[test]
fn test_unicode_whitespace_is_trimmed() {
    // Trimming removes Unicode white space, not only ASCII spaces.
    let (bang, term) = extract_bang("\u{3000}\t!g search term\u{00A0}\n");
    assert_eq!(bang.as_deref(), Some("!g"));
    assert_eq!(term, "search term");
}

#[test]
fn test_bare_bang_suffix_token() {
    // A lone `!` as the final space-delimited token is still a bang.
    let (bang, term) = extract_bang("a !");
    assert_eq!(bang.as_deref(), Some("!"));
    assert_eq!(term, "a");
}

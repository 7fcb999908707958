use bang_search::config::{default_config, BangDetails, BangTable, Config};

#[test]
fn test_default_config() {
    let config = default_config();

    // Test that default config has expected bangs
    assert!(config.bangs.contains_key("!g"));
    assert!(config.bangs.contains_key("!ddg"));
    assert!(config.bangs.contains_key("!yt"));

    // Test URL format
    for i in 0..config.bangs.len() {
        let entry = config.bangs.entry_at(i);
        assert!(
            entry.1.url.contains("{searchTerms}"),
            "URL should contain placeholder"
        );
    }
}

#[test]
fn test_default_config_private_tier_disabled() {
    let config = default_config();
    assert_eq!(config.auth_token, "");
    assert_eq!(config.private_bangs.len(), 0);
    // An empty secret never authorizes, not even an empty credential.
    assert!(!config.is_authorized(None));
    assert!(!config.is_authorized(Some(&String::new())));
}

#[test]
fn test_insert_replaces_existing_key() {
    let mut table = BangTable::new();
    table.insert(
        "!x".to_string(),
        BangDetails { url: "https://one.example/?q={searchTerms}".to_string(), name: "One".to_string(), icon: "".to_string() },
    );
    table.insert(
        "!x".to_string(),
        BangDetails { url: "https://two.example/?q={searchTerms}".to_string(), name: "Two".to_string(), icon: "".to_string() },
    );
    assert_eq!(table.len(), 1);
    assert_eq!(table.get("!x").unwrap().url, "https://two.example/?q={searchTerms}");
}

#[test]
fn test_lookup_public_precedence() {
    // A token defined in both tiers resolves to the public definition,
    // with or without authorization.
    let mut bangs = BangTable::new();
    let mut private_bangs = BangTable::new();
    bangs.insert(
        "!both".to_string(),
        BangDetails { url: "https://public.example/?q={searchTerms}".to_string(), name: "Pub".to_string(), icon: "".to_string() },
    );
    private_bangs.insert(
        "!both".to_string(),
        BangDetails { url: "https://private.example/?q={searchTerms}".to_string(), name: "Priv".to_string(), icon: "".to_string() },
    );
    let config = Config { bangs, private_bangs, auth_token: "s".to_string() };
    let with_auth = config.lookup("!both", true).unwrap();
    assert_eq!(with_auth.url, "https://public.example/?q={searchTerms}");
    let without_auth = config.lookup("!both", false).unwrap();
    assert_eq!(without_auth.url, "https://public.example/?q={searchTerms}");
}

#[test]
fn test_lookup_private_needs_authorization() {
    // A token defined only in the private tier is invisible without
    // authorization, exactly as an unknown token is.
    let bangs = BangTable::new();
    let mut private_bangs = BangTable::new();
    private_bangs.insert(
        "!p".to_string(),
        BangDetails { url: "https://private.example/?q={searchTerms}".to_string(), name: "Priv".to_string(), icon: "".to_string() },
    );
    let config = Config { bangs, private_bangs, auth_token: "s".to_string() };
    assert!(config.lookup("!p", false).is_none());
    assert_eq!(config.lookup("!p", true).unwrap().url, "https://private.example/?q={searchTerms}");
}

#[test]
fn test_is_authorized() {
    let config = Config {
        bangs: BangTable::new(),
        private_bangs: BangTable::new(),
        auth_token: "secret_token".to_string(),
    };
    assert!(config.is_authorized(Some(&"secret_token".to_string())));
    assert!(!config.is_authorized(Some(&"wrong_token".to_string())));
    assert!(!config.is_authorized(None));
}

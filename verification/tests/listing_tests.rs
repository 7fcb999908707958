use bang_search::config::{BangDetails, BangTable, Config};

fn details(url: &str, name: &str) -> BangDetails {
    BangDetails { url: url.to_string(), name: name.to_string(), icon: "".to_string() }
}

fn config_from(order: &[&str], private: &[&str], secret: &str) -> Config {
    let mut bangs = BangTable::new();
    for key in order {
        bangs.insert(key.to_string(), details("https://example.com/?q={searchTerms}", key));
    }
    let mut private_bangs = BangTable::new();
    for key in private {
        private_bangs.insert(
            key.to_string(),
            details("https://private.example.com/?q={searchTerms}", key),
        );
    }
    Config { bangs, private_bangs, auth_token: secret.to_string() }
}

#[test]
fn test_listing_sorted_by_token() {
    let config = config_from(&["!z", "!a", "!m", "!b"], &[], "");
    let rows = config.list_available(None);
    let keys: Vec<&str> = rows.iter().map(|r| r.key.as_str()).collect();
    assert_eq!(keys, vec!["!a", "!b", "!m", "!z"]);
}

#[test]
fn test_listing_independent_of_insertion_order() {
    let first = config_from(&["!z", "!a", "!m"], &[], "");
    let second = config_from(&["!m", "!z", "!a"], &[], "");
    let rows_first = first.list_available(None);
    let rows_second = second.list_available(None);
    assert_eq!(rows_first.len(), rows_second.len());
    for (a, b) in rows_first.iter().zip(rows_second.iter()) {
        assert_eq!(a.key, b.key);
        assert_eq!(a.name, b.name);
        assert_eq!(a.icon, b.icon);
        assert_eq!(a.url, b.url);
    }
}

#[test]
fn test_listing_private_tier_needs_credential() {
    let config = config_from(&["!pub"], &["!priv"], "secret");
    let without = config.list_available(None);
    let keys: Vec<&str> = without.iter().map(|r| r.key.as_str()).collect();
    assert_eq!(keys, vec!["!pub"]);

    let with = config.list_available(Some(&"secret".to_string()));
    let keys: Vec<&str> = with.iter().map(|r| r.key.as_str()).collect();
    assert_eq!(keys, vec!["!priv", "!pub"]);
}

#[test]
fn test_listing_rows_carry_definition() {
    let config = config_from(&["!one"], &[], "");
    let rows = config.list_available(None);
    assert_eq!(rows.len(), 1);
    assert_eq!(rows[0].key, "!one");
    assert_eq!(rows[0].name, "!one");
    assert_eq!(rows[0].icon, "");
    assert_eq!(rows[0].url, "https://example.com/?q={searchTerms}");
}

use bookmerge::config::{symbol_listed, AppConfig, ConfigError};

fn names(list: &[&str]) -> Vec<String> {
    list.iter().map(|s| s.to_string()).collect()
}

#[test]
fn accepts_valid_settings() {
    let c = AppConfig::new("BTC".to_string(), "BTC-USD-PERP".to_string(), 5, 500).unwrap();
    assert_eq!(c.hl_symbol, "BTC");
    assert_eq!(c.pdx_symbol, "BTC-USD-PERP");
    assert_eq!(c.depth, 5);
    assert_eq!(c.tick_ms, 500);
}

#[test]
fn accepts_boundary_settings() {
    assert!(AppConfig::new("A".to_string(), "B".to_string(), 1, 50).is_ok());
    assert!(AppConfig::new("A".to_string(), "B".to_string(), 10, 2000).is_ok());
}

#[test]
fn rejects_empty_symbols() {
    assert_eq!(
        AppConfig::new("".to_string(), "B".to_string(), 5, 500).unwrap_err(),
        ConfigError::EmptyHlSymbol
    );
    assert_eq!(
        AppConfig::new("A".to_string(), "".to_string(), 5, 500).unwrap_err(),
        ConfigError::EmptyPdxSymbol
    );
}

#[test]
fn rejects_depth_out_of_range() {
    assert_eq!(
        AppConfig::new("A".to_string(), "B".to_string(), 0, 500).unwrap_err(),
        ConfigError::DepthOutOfRange
    );
    assert_eq!(
        AppConfig::new("A".to_string(), "B".to_string(), 11, 500).unwrap_err(),
        ConfigError::DepthOutOfRange
    );
}

#[test]
fn rejects_tick_interval_out_of_range() {
    assert_eq!(
        AppConfig::new("A".to_string(), "B".to_string(), 5, 49).unwrap_err(),
        ConfigError::TickIntervalOutOfRange
    );
    assert_eq!(
        AppConfig::new("A".to_string(), "B".to_string(), 5, 2001).unwrap_err(),
        ConfigError::TickIntervalOutOfRange
    );
}

#[test]
fn first_violated_rule_names_the_error() {
    assert_eq!(
        AppConfig::new("".to_string(), "".to_string(), 0, 0).unwrap_err(),
        ConfigError::EmptyHlSymbol
    );
    assert_eq!(
        AppConfig::new("A".to_string(), "".to_string(), 0, 0).unwrap_err(),
        ConfigError::EmptyPdxSymbol
    );
    assert_eq!(
        AppConfig::new("A".to_string(), "B".to_string(), 0, 0).unwrap_err(),
        ConfigError::DepthOutOfRange
    );
}

#[test]
fn error_messages_name_the_field() {
    assert_eq!(ConfigError::EmptyHlSymbol.message(), "pair.hl_symbol must not be empty");
    assert_eq!(ConfigError::DepthOutOfRange.message(), "display.depth must be between 1 and 10");
}

#[test]
fn symbol_membership_ignores_ascii_case() {
    let known = names(&["BTC", "ETH", "SOL"]);
    assert!(symbol_listed(&known, "BTC"));
    assert!(symbol_listed(&known, "btc"));
    assert!(symbol_listed(&known, "Eth"));
    assert!(!symbol_listed(&known, "DOGE"));
    assert!(!symbol_listed(&known, "BT"));
    assert!(!symbol_listed(&known, "BTCX"));
    assert!(!symbol_listed(&Vec::new(), "BTC"));
}

use orderflow::config::GWTradeConfig;

#[test]
fn config_defaults_to_empty_token() {
    let c = GWTradeConfig::default();
    assert_eq!(c.token, "");
    let d = GWTradeConfig { token: "abc".to_string() };
    assert!(c != d);
    assert!(d.clone() == d);
}

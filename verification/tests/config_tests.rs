use interceptkit_proxy::config::port_setting;

fn port(text: &str) -> u16 {
    port_setting(Some(text.to_string()), 8081)
}

#[test]
fn ports_read_as_u16_parses_them() {
    for text in ["0", "80", "+443", "0008080", "65535", "", "+", "-1", "65536", " 80", "80 ", "8o", "++1", "99999999999"] {
        let expected = text.parse::<u16>().unwrap_or(8081);
        assert_eq!(port(text), expected, "text {text:?}");
    }
    assert_eq!(port_setting(None, 4592), 4592);
    assert_eq!(port("4592"), 4592);
}

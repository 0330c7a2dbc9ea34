use bird_password::net::resolve_client_ip;

#[test]
fn forwarded_for_list_resolves_to_first_entry() {
    let ip = resolve_client_ip(None, Some("203.0.113.5, 10.0.0.1"), "9.9.9.9");
    assert_eq!(ip, "203.0.113.5");
}

#[test]
fn platform_header_is_preferred() {
    let ip = resolve_client_ip(Some("198.51.100.7"), Some("203.0.113.5, 10.0.0.1"), "9.9.9.9");
    assert_eq!(ip, "198.51.100.7");
}

#[test]
fn peer_address_is_the_last_resort() {
    let ip = resolve_client_ip(None, None, "192.0.2.33");
    assert_eq!(ip, "192.0.2.33");
}

#[test]
fn single_forwarded_entry_is_trimmed() {
    let ip = resolve_client_ip(None, Some("  203.0.113.5\t"), "9.9.9.9");
    assert_eq!(ip, "203.0.113.5");
}

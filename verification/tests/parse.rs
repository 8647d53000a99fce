use quotdd::config::parse_port;
use quotdd::config::DEFAULT_PORT;

fn bytes(s: &str) -> Vec<u8> {
    s.as_bytes().to_vec()
}

#[test]
fn plain_number() {
    assert_eq!(parse_port(&bytes("80")), Some(80));
    assert_eq!(parse_port(&bytes("17")), Some(17));
    assert_eq!(parse_port(&bytes("0")), Some(0));
}

#[test]
fn leading_plus_and_zeros() {
    assert_eq!(parse_port(&bytes("+443")), Some(443));
    assert_eq!(parse_port(&bytes("017")), Some(17));
}

#[test]
fn largest_port() {
    assert_eq!(parse_port(&bytes("65535")), Some(65535));
    assert_eq!(parse_port(&bytes("65536")), None);
    assert_eq!(parse_port(&bytes("99999999999999999999")), None);
}

#[test]
fn rejects_non_numbers() {
    assert_eq!(parse_port(&bytes("")), None);
    assert_eq!(parse_port(&bytes("+")), None);
    assert_eq!(parse_port(&bytes("12a")), None);
    assert_eq!(parse_port(&bytes("-1")), None);
    assert_eq!(parse_port(&bytes(" 80")), None);
    assert_eq!(parse_port(&bytes("80 ")), None);
}

#[test]
fn default_port_is_qotd() {
    assert_eq!(DEFAULT_PORT, 17);
}

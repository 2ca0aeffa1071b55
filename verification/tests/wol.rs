use samsungtv::wol::{magic_packet, parse_ipv4, parse_mac, subnet_broadcast, wake_targets, MacError};

const MAC: [u8; 6] = [0xC0, 0x97, 0x27, 0xAA, 0xBB, 0xCC];

#[test]
fn magic_packet_is_102_bytes() {
    assert_eq!(magic_packet(&MAC).len(), 102);
}

#[test]
fn magic_packet_starts_with_ff_header() {
    assert_eq!(&magic_packet(&MAC)[..6], &[0xFF; 6]);
}

#[test]
fn magic_packet_repeats_mac_16_times() {
    let packet = magic_packet(&MAC);
    for repetition in packet[6..].chunks(6) {
        assert_eq!(repetition, MAC);
    }
    assert_eq!(packet[6..].len(), 16 * 6);
}

#[test]
fn parses_colon_separated_lowercase() {
    assert_eq!(parse_mac("c0:97:27:aa:bb:cc").unwrap(), MAC);
}

#[test]
fn parses_dash_separated_uppercase() {
    assert_eq!(parse_mac("C0-97-27-AA-BB-CC").unwrap(), MAC);
}

#[test]
fn rejects_wrong_octet_count() {
    assert!(parse_mac("c0:97:27:aa:bb").is_err());
}

#[test]
fn rejects_non_hex_octets() {
    assert!(parse_mac("c0:97:27:aa:bb:zz").is_err());
}

#[test]
fn subnet_broadcast_for_ipv4_host() {
    assert_eq!(subnet_broadcast("192.168.1.42"), Some([192, 168, 1, 255]));
}

#[test]
fn no_subnet_broadcast_for_hostname() {
    assert_eq!(subnet_broadcast("tv.localdomain"), None);
}

#[test]
fn mac_errors_name_the_problem() {
    assert_eq!(parse_mac("c0:97:27:aa:bb"), Err(MacError::WrongOctetCount));
    assert_eq!(parse_mac("c0:97:27:aa:bb:cc:dd"), Err(MacError::WrongOctetCount));
    assert_eq!(parse_mac(""), Err(MacError::WrongOctetCount));
    assert_eq!(
        parse_mac("c0:97:zz:aa:bb:yy"),
        Err(MacError::BadOctet("zz".to_string()))
    );
    assert_eq!(parse_mac("c0::27:aa:bb:cc"), Err(MacError::BadOctet(String::new())));
    assert_eq!(parse_mac("c0:97:27:aa:bb:100"), Err(MacError::BadOctet("100".to_string())));
    assert_eq!(parse_mac("c0:97:27:aa:bb:-1"), Err(MacError::WrongOctetCount));
    assert_eq!(parse_mac("c0:97:27:aa:bb: c"), Err(MacError::BadOctet(" c".to_string())));
    assert_eq!(parse_mac("c0:97:27:aa:bb:+"), Err(MacError::BadOctet("+".to_string())));
}

#[test]
fn mac_octets_follow_from_str_radix() {
    // An optional plus sign, single digits, leading zeros, mixed separators.
    assert_eq!(parse_mac("+c0:97-27:aa-0bb:c").unwrap(), [0xC0, 0x97, 0x27, 0xAA, 0xBB, 0x0C]);
    for part in ["+c0", "c", "0bb", "000ff", "Ff"] {
        let mac = format!("{part}:0:0:0:0:0");
        let ours = parse_mac(&mac).unwrap()[0];
        assert_eq!(ours, u8::from_str_radix(part, 16).unwrap());
    }
}

#[test]
fn ipv4_parsing_follows_dotted_decimal() {
    assert_eq!(parse_ipv4("192.168.1.42"), Some([192, 168, 1, 42]));
    assert_eq!(parse_ipv4("0.0.0.0"), Some([0, 0, 0, 0]));
    assert_eq!(parse_ipv4("255.255.255.255"), Some([255, 255, 255, 255]));
    assert_eq!(parse_ipv4("10.0.0.255"), Some([10, 0, 0, 255]));
    for host in [
        "1.2.3", "1.2.3.4.5", "01.2.3.4", "256.1.1.1", "1.2.3.", "1..2.3", "a.b.c.d",
        "tv.localdomain", "", "1234.1.1.1", " 1.2.3.4", "1.2.3.04", "+1.2.3.4",
    ] {
        assert_eq!(parse_ipv4(host), None, "host {host:?}");
    }
}

#[test]
fn wake_targets_for_ipv4_and_hostname() {
    assert_eq!(
        wake_targets("192.168.1.42"),
        vec!["192.168.1.42:9", "255.255.255.255:9", "192.168.1.255:9"]
    );
    assert_eq!(wake_targets("10.0.0.7"), vec!["10.0.0.7:9", "255.255.255.255:9", "10.0.0.255:9"]);
    assert_eq!(wake_targets("tv.localdomain"), vec!["tv.localdomain:9", "255.255.255.255:9"]);
}

#[test]
fn separators_and_digit_case_do_not_matter() {
    let forms = ["c0:97:27:aa:bb:cc", "C0-97-27-AA-BB-CC", "c0-97:27-Aa:bB-cc"];
    for form in forms {
        assert_eq!(parse_mac(form), Ok(MAC));
    }
    assert_eq!(parse_mac("c0:97:27:aa:bb:zz"), parse_mac("C0-97-27-AA-BB-zz"));
}

#[test]
fn formatted_macs_parse_back() {
    for bytes in [MAC, [0, 1, 0x0f, 0x10, 0xfe, 0xff]] {
        for sep in [":", "-"] {
            let lower: Vec<String> = bytes.iter().map(|x| format!("{x:02x}")).collect();
            let upper: Vec<String> = bytes.iter().map(|x| format!("{x:02X}")).collect();
            assert_eq!(parse_mac(&lower.join(sep)), Ok(bytes));
            assert_eq!(parse_mac(&upper.join(sep)), Ok(bytes));
        }
    }
}

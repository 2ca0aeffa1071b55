use samsungtv::config::{base64_encode, parse_config, Config, ConfigError};

#[test]
fn parses_host_mac_and_name() {
    let text = "host = \"192.168.1.42\"\nmac = \"c0:97:27:aa:bb:cc\"\nname = \"mytv\"\n";
    let [host, mac, name] = parse_config(text);
    assert_eq!(host.as_deref(), Some("192.168.1.42"));
    assert_eq!(mac.as_deref(), Some("c0:97:27:aa:bb:cc"));
    assert_eq!(name.as_deref(), Some("mytv"));
}

#[test]
fn ignores_unrelated_keys_and_sections() {
    let [host, mac, name] = parse_config("[server]\nfoo = 1\nbar = \"x\"\n");
    assert_eq!(host, None);
    assert_eq!(mac, None);
    assert_eq!(name, None);
}

#[test]
fn base64_matches_known_vectors() {
    // RFC 4648 test vectors.
    assert_eq!(base64_encode(b""), "");
    assert_eq!(base64_encode(b"f"), "Zg==");
    assert_eq!(base64_encode(b"fo"), "Zm8=");
    assert_eq!(base64_encode(b"foo"), "Zm9v");
    assert_eq!(base64_encode(b"foob"), "Zm9vYg==");
    assert_eq!(base64_encode(b"fooba"), "Zm9vYmE=");
    assert_eq!(base64_encode(b"foobar"), "Zm9vYmFy");
    // The name Home Assistant uses, seen verbatim in TV client lists.
    assert_eq!(base64_encode(b"HomeAssistant"), "SG9tZUFzc2lzdGFudA==");
}

#[test]
fn later_lines_win_and_crlf_and_spaces_are_trimmed() {
    let text = "  host=\"10.0.0.1\"\r\nhost = 10.0.0.2\r\n\tmac\t=\t\"\"aa-bb\"\"  \nname=";
    let [host, mac, name] = parse_config(text);
    assert_eq!(host.as_deref(), Some("10.0.0.2"));
    assert_eq!(mac.as_deref(), Some("aa-bb"));
    assert_eq!(name.as_deref(), Some(""));
}

#[test]
fn value_keeps_later_equals_signs_and_inner_quotes() {
    let [host, _, name] = parse_config("host = a=b\nname = \"my \"tv\"\"\n");
    assert_eq!(host.as_deref(), Some("a=b"));
    assert_eq!(name.as_deref(), Some("my \"tv"));
}

#[test]
fn keys_are_case_sensitive_and_lines_without_equals_ignored() {
    let [host, mac, name] = parse_config("HOST = x\nmac \"y\"\n\n= z\nname\n");
    assert_eq!(host, None);
    assert_eq!(mac, None);
    assert_eq!(name, None);
}

#[test]
fn empty_text_sets_nothing() {
    let [host, mac, name] = parse_config("");
    assert_eq!((host, mac, name), (None, None, None));
}

#[test]
fn base64_of_all_byte_values_decodes_back() {
    let bytes: Vec<u8> = (0u8..=255).collect();
    let encoded = base64_encode(&bytes);
    assert_eq!(encoded.len(), 4 * ((bytes.len() + 2) / 3));
    assert!(encoded.starts_with("AAECAwQFBgcICQoLDA0ODxAREhMUFRYXGBkaGxwdHh8gISIjJCUmJygpKissLS4v"));
    assert!(encoded.ends_with("+/w=="));
}

#[test]
fn base64_splits_at_three_byte_groups() {
    let a = b"foo";
    let b = b"bar!";
    let mut ab = a.to_vec();
    ab.extend_from_slice(b);
    assert_eq!(base64_encode(&ab), base64_encode(a) + &base64_encode(b));
}

fn some(s: &str) -> Option<String> {
    Some(s.to_string())
}

#[test]
fn environment_wins_over_file() {
    let file = Some([some("filehost"), some("aa:bb:cc:dd:ee:ff"), some("filename")]);
    let config = Config::resolve(some("envhost"), None, None, file).unwrap();
    assert_eq!(config.host, "envhost");
    assert_eq!(config.mac.as_deref(), Some("aa:bb:cc:dd:ee:ff"));
    assert_eq!(config.name, "filename");
}

#[test]
fn name_defaults_and_host_is_required() {
    let config = Config::resolve(None, None, None, Some([some("tv"), None, None])).unwrap();
    assert_eq!(config.name, "samsungtv-cli");
    assert_eq!(config.mac, None);
    let missing = Config::resolve(None, some("m"), some("n"), Some([None, None, None]));
    assert_eq!(missing.err(), Some(ConfigError::MissingHost));
    let no_file = Config::resolve(None, None, None, None);
    assert_eq!(no_file.err(), Some(ConfigError::MissingHost));
    assert!(ConfigError::MissingHost.message().contains("SAMSUNGTV_HOST"));
}

#[test]
fn require_mac_reports_missing_mac() {
    let mut config = Config::resolve(some("tv"), None, None, None).unwrap();
    assert_eq!(config.require_mac(), Err(ConfigError::MissingMac));
    assert!(ConfigError::MissingMac.message().starts_with("missing TV MAC address"));
    config.mac = some("c0:97:27:aa:bb:cc");
    assert_eq!(config.require_mac(), Ok("c0:97:27:aa:bb:cc"));
}

#[test]
fn urls_for_host_and_client_name() {
    let config = Config::resolve(some("192.168.1.42"), None, some("HomeAssistant"), None).unwrap();
    assert_eq!(config.rest_url(), "http://192.168.1.42:8001/api/v2/");
    assert_eq!(
        config.ws_url(),
        "ws://192.168.1.42:8001/api/v2/channels/samsung.remote.control?name=SG9tZUFzc2lzdGFudA=="
    );
    let default = Config::resolve(some("tv"), None, None, None).unwrap();
    assert_eq!(
        default.ws_url(),
        "ws://tv:8001/api/v2/channels/samsung.remote.control?name=c2Ftc3VuZ3R2LWNsaQ=="
    );
}

#[test]
fn ws_url_encodes_utf8_bytes_of_name() {
    let config = Config::resolve(some("tv"), None, some("é"), None).unwrap();
    assert!(config.ws_url().ends_with("?name=w6k="));
}

#[test]
fn readme_config_with_trailing_comments() {
    let text = "host = \"192.168.1.42\"\nmac = \"c0:97:27:aa:bb:cc\"   # needed for `on` (wake-on-LAN)\nname = \"samsungtv-cli\"      # client name shown on the TV (optional)\n";
    let [host, mac, name] = parse_config(text);
    assert_eq!(host.as_deref(), Some("192.168.1.42"));
    assert_eq!(mac.as_deref(), Some("c0:97:27:aa:bb:cc"));
    assert_eq!(name.as_deref(), Some("samsungtv-cli"));
}

#[test]
fn hash_inside_quotes_or_unquoted_stays() {
    let [host, mac, name] = parse_config(
        "host = \"a#b\"#c\nmac = \"x\" # one # two\nname = plain # not a comment\n",
    );
    assert_eq!(host.as_deref(), Some("a#b"));
    assert_eq!(mac.as_deref(), Some("x"));
    assert_eq!(name.as_deref(), Some("plain # not a comment"));
    let [host, _, _] = parse_config("host = \"#\"\n");
    assert_eq!(host.as_deref(), Some("#"));
}

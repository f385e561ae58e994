use wsh::config::Config;
use wsh::config::ConfigEntry;
use wsh::config::ConfigLoadError;
use wsh::config::Replaceable;
use wsh::config::append_to_url;
use wsh::config::get_config_url;
use wsh::config::get_reload_url;
use wsh::encoding::decode_bytes;
use wsh::encoding::encode_bytes;

fn b(s: &str) -> Vec<u8> {
    s.as_bytes().to_vec()
}

fn entry(key: &str, url: &str, aliases: &[&str]) -> ConfigEntry {
    ConfigEntry {
        key: b(key),
        url: b(url),
        aliases: aliases.iter().map(|a| b(a)).collect(),
    }
}

fn config_of(prefix: u8, entries: Vec<ConfigEntry>) -> Config {
    Config::from_entries(&b("./sites.toml"), true, prefix, &entries).expect("config must build")
}

#[test]
fn simple_rule_resolves_with_encoded_remainder() {
    // Bare key "g": the prefix character is the whole key.
    let rule = Replaceable::new(b'g', &b(""), &b("https://example.com/search?q={{s}}"))
        .expect("template has a placeholder");
    let config = Config {
        location: b("./sites.toml"),
        sites: vec![rule],
        is_config_host: true,
    };
    let r = config.find_redirect(&b("g hello world"));
    assert_eq!(r, b("https://example.com/search?q=hello%20world"));
}

#[test]
fn prefixed_rule_resolves_with_encoded_remainder() {
    let config = config_of(b'!', vec![entry("g", "https://example.com/search?q={{s}}", &[])]);
    let r = config.find_redirect(&b("!g hello world"));
    assert_eq!(r, b("https://example.com/search?q=hello%20world"));
}

#[test]
fn alias_resolves_identically_to_primary_key() {
    let config = config_of(
        b'!',
        vec![entry("ddg", "https://duckduckgo.com/?q={{s}}", &["d"])],
    );
    let via_alias = config.find_redirect(&b("!d cats"));
    let via_primary = config.find_redirect(&b("!ddg cats"));
    assert_eq!(via_alias, via_primary);
    assert_eq!(via_alias, b("https://duckduckgo.com/?q=cats"));
}

#[test]
fn unmatched_input_falls_back_to_first_rule_without_stripping() {
    let config = config_of(
        b'!',
        vec![
            entry("g", "https://example.com/search?q={{s}}", &[]),
            entry("d", "https://duckduckgo.com/?q={{s}}", &[]),
        ],
    );
    let r = config.find_redirect(&b("no match here"));
    assert_eq!(r, b("https://example.com/search?q=no%20match%20here"));
}

#[test]
fn key_at_end_of_input_matches_and_is_stripped() {
    let config = config_of(b'!', vec![entry("g", "https://example.com/search?q={{s}}", &[])]);
    let r = config.find_redirect(&b("cats !g"));
    // The bare key is stripped once; the space before it remains and is encoded.
    assert_eq!(r, b("https://example.com/search?q=cats%20"));
}

#[test]
fn only_one_occurrence_of_the_key_is_stripped() {
    let config = config_of(b'!', vec![entry("g", "https://example.com/search?q={{s}}", &[])]);
    // "!g " and "!g" are each stripped once; the second "!g" loses only its
    // trailing space's worth, leaving the leading space of the remainder.
    let r = config.find_redirect(&b("!g !g a"));
    assert_eq!(r, b("https://example.com/search?q=%20a"));
}

#[test]
fn empty_input_falls_back_to_the_first_rule() {
    let config = config_of(b'!', vec![entry("g", "https://example.com/search?q={{s}}", &[])]);
    let r = config.find_redirect(&b(""));
    assert_eq!(r, b("https://example.com/search?q="));
}

#[test]
fn bare_key_alone_resolves_to_an_empty_query() {
    let config = config_of(b'!', vec![entry("g", "https://example.com/search?q={{s}}", &[])]);
    let r = config.find_redirect(&b("!g"));
    assert_eq!(r, b("https://example.com/search?q="));
}

#[test]
fn earlier_rule_wins_over_later_rule() {
    // The input ends with "!o" (a suffix match for the first rule below) and
    // contains "!g " (a key-with-space match for the second).
    let input = "!g foo!o";
    let first_o = config_of(
        b'!',
        vec![
            entry("o", "https://one.example/?q={{s}}", &[]),
            entry("g", "https://two.example/?q={{s}}", &[]),
        ],
    );
    let r = first_o.find_redirect(&b(input));
    assert!(r.starts_with(b"https://one.example/"), "earlier rule must win");

    let first_g = config_of(
        b'!',
        vec![
            entry("g", "https://two.example/?q={{s}}", &[]),
            entry("o", "https://one.example/?q={{s}}", &[]),
        ],
    );
    let r = first_g.find_redirect(&b(input));
    assert!(r.starts_with(b"https://two.example/"), "earlier rule must win");
}

#[test]
fn placeholder_position_is_kept() {
    let config = config_of(b'!', vec![entry("w", "https://w.example/{{s}}/page", &[])]);
    let r = config.find_redirect(&b("!w abc"));
    assert_eq!(r, b("https://w.example/abc/page"));
}

#[test]
fn missing_placeholder_is_rejected() {
    let r = Config::from_entries(
        &b("./sites.toml"),
        true,
        b'!',
        &vec![entry("g", "https://example.com/search", &[])],
    );
    assert_eq!(r.err(), Some(ConfigLoadError::MissingPlaceholder));
}

#[test]
fn missing_placeholder_in_one_entry_rejects_the_whole_set() {
    let r = Config::from_entries(
        &b("./sites.toml"),
        true,
        b'!',
        &vec![
            entry("g", "https://example.com/search?q={{s}}", &[]),
            entry("d", "https://duckduckgo.com/", &[]),
        ],
    );
    assert_eq!(r.err(), Some(ConfigLoadError::MissingPlaceholder));
}

#[test]
fn successful_reload_replaces_rules() {
    let mut config = config_of(b'!', vec![entry("g", "https://old.example/?q={{s}}", &[])]);
    let newer = config_of(b'!', vec![entry("g", "https://new.example/?q={{s}}", &[])]);
    let r = config.reload_config(Ok(newer));
    assert!(r.is_ok());
    let resolved = config.find_redirect(&b("!g x"));
    assert_eq!(resolved, b("https://new.example/?q=x"));
}

#[test]
fn failed_reload_keeps_the_old_rules_and_reports_the_error() {
    let mut config = config_of(b'!', vec![entry("g", "https://old.example/?q={{s}}", &[])]);
    let r = config.reload_config(Err(ConfigLoadError::ParseError));
    assert_eq!(r.err(), Some(ConfigLoadError::ParseError));
    let resolved = config.find_redirect(&b("!g x"));
    assert_eq!(resolved, b("https://old.example/?q=x"));
}

#[test]
fn encoding_is_identity_on_unreserved_input() {
    let input = b("abc-XYZ_0.9~");
    let once = encode_bytes(&input);
    assert_eq!(once, input);
    let twice = encode_bytes(&once);
    assert_eq!(twice, once);
}

#[test]
fn encoding_matches_the_reference_encoder() {
    for s in ["hello world", "a+b&c=d", "umlaut \u{00e4}\u{00f6}\u{00fc}", "/path?x=1"] {
        let mine = encode_bytes(&b(s));
        let reference = urlencoding::encode(s);
        assert_eq!(mine, reference.as_bytes().to_vec(), "input {s:?}");
    }
}

#[test]
fn decoding_matches_the_reference_decoder() {
    for s in ["hello%20world", "a%2Bb", "plain", "%41%2F%7e"] {
        let mine = decode_bytes(&b(s));
        let reference = urlencoding::decode(s).expect("valid utf-8");
        assert_eq!(mine, reference.as_bytes().to_vec(), "input {s:?}");
    }
}

#[test]
fn decode_undoes_encode() {
    for s in ["hello world", "a+b&c=d %%", "{{s}}", ""] {
        let encoded = encode_bytes(&b(s));
        let back = decode_bytes(&encoded);
        assert_eq!(back, b(s), "input {s:?}");
    }
}

#[test]
fn malformed_percent_sequences_pass_through_decoding() {
    assert_eq!(decode_bytes(&b("%zz")), b("%zz"));
    assert_eq!(decode_bytes(&b("50%")), b("50%"));
    assert_eq!(decode_bytes(&b("%4")), b("%4"));
}

#[test]
fn url_appending_drops_one_trailing_slash() {
    assert_eq!(append_to_url(&b("http://host/"), &b("/u/")), b("http://host/u/"));
    assert_eq!(append_to_url(&b("http://host"), &b("/u/")), b("http://host/u/"));
    assert_eq!(get_config_url(&b("http://host/")), b("http://host/u/"));
    assert_eq!(get_reload_url(&b("http://host")), b("http://host/r/"));
}

use executor_core::config::{
    connection_uri, load_server_settings, server_settings, ServerAddress, ServerSettings,
};
use executor_core::error::{ConfigError, SettingKey};
use executor_core::text::{parse_signed, parse_unsigned, split_text};

fn pairs(items: &[(&str, &str)]) -> Vec<(String, String)> {
    items.iter().map(|(k, v)| (k.to_string(), v.to_string())).collect()
}

fn complete() -> Vec<(String, String)> {
    pairs(&[
        ("rpc.port", "1234"),
        ("server.id", "1"),
        ("server.size", "2"),
        ("network.servers", "127.0.0.1:11234,host-b:11235"),
        ("graph.vineyard.object.id", "-77"),
    ])
}

fn without(key: &str) -> Vec<(String, String)> {
    complete().into_iter().filter(|(k, _)| k != key).collect()
}

fn with(key: &str, value: &str) -> Vec<(String, String)> {
    let mut all = complete();
    all.push((key.to_string(), value.to_string()));
    all
}

fn expected() -> ServerSettings {
    ServerSettings {
        rpc_port: 1234,
        server_id: 1,
        server_size: 2,
        servers: vec![
            ServerAddress { hostname: "127.0.0.1".to_string(), port: 11234 },
            ServerAddress { hostname: "host-b".to_string(), port: 11235 },
        ],
        graph_object_id: -77,
    }
}

#[test]
fn unsigned_numbers_are_read_in_decimal() {
    assert_eq!(parse_unsigned("0", u64::MAX), Some(0));
    assert_eq!(parse_unsigned("42", u64::MAX), Some(42));
    assert_eq!(parse_unsigned("+42", u64::MAX), Some(42));
    assert_eq!(parse_unsigned("007", u64::MAX), Some(7));
    assert_eq!(parse_unsigned("65535", 65535), Some(65535));
    assert_eq!(parse_unsigned("65536", 65535), None);
    assert_eq!(parse_unsigned("18446744073709551615", u64::MAX), Some(u64::MAX));
    assert_eq!(parse_unsigned("18446744073709551616", u64::MAX), None);
    assert_eq!(parse_unsigned("000000000000000000000000000001", u64::MAX), Some(1));
    assert_eq!(parse_unsigned("", u64::MAX), None);
    assert_eq!(parse_unsigned("+", u64::MAX), None);
    assert_eq!(parse_unsigned("-1", u64::MAX), None);
    assert_eq!(parse_unsigned("-0", u64::MAX), None);
    assert_eq!(parse_unsigned("12 ", u64::MAX), None);
    assert_eq!(parse_unsigned(" 12", u64::MAX), None);
    assert_eq!(parse_unsigned("1x", u64::MAX), None);
    assert_eq!(parse_unsigned("++1", u64::MAX), None);
    assert_eq!(parse_unsigned("\u{661}", u64::MAX), None);
}

#[test]
fn unsigned_numbers_agree_with_the_standard_parser() {
    for text in ["0", "9", "+9", "010", "65535", "65536", "", "+", "-", "-5", "a", "1a", "99999"] {
        assert_eq!(parse_unsigned(text, 65535), text.parse::<u16>().ok().map(u64::from));
        assert_eq!(parse_unsigned(text, u64::MAX), text.parse::<u64>().ok());
    }
}

#[test]
fn signed_numbers_are_read_in_decimal() {
    assert_eq!(parse_signed("0"), Some(0));
    assert_eq!(parse_signed("-0"), Some(0));
    assert_eq!(parse_signed("+17"), Some(17));
    assert_eq!(parse_signed("-17"), Some(-17));
    assert_eq!(parse_signed("9223372036854775807"), Some(i64::MAX));
    assert_eq!(parse_signed("9223372036854775808"), None);
    assert_eq!(parse_signed("-9223372036854775808"), Some(i64::MIN));
    assert_eq!(parse_signed("-9223372036854775809"), None);
    assert_eq!(parse_signed(""), None);
    assert_eq!(parse_signed("-"), None);
    assert_eq!(parse_signed("+"), None);
    assert_eq!(parse_signed("+-1"), None);
    assert_eq!(parse_signed("1-"), None);
    for text in ["5", "-5", "+5", "--5", "", "-", "12a", "-9223372036854775808", "00012"] {
        assert_eq!(parse_signed(text), text.parse::<i64>().ok());
    }
}

#[test]
fn text_is_cut_at_every_separator() {
    assert_eq!(split_text("a,b,c", ','), vec!["a", "b", "c"]);
    assert_eq!(split_text("abc", ','), vec!["abc"]);
    assert_eq!(split_text("", ','), vec![""]);
    assert_eq!(split_text(",", ','), vec!["", ""]);
    assert_eq!(split_text("a,,b,", ','), vec!["a", "", "b", ""]);
    assert_eq!(split_text(",a", ','), vec!["", "a"]);
    assert_eq!(split_text("h\u{f6}st:1", ':'), vec!["h\u{f6}st", "1"]);
    for text in ["", ",", "a", "a,b", ",,", "a,,", ",a,b,c", "x:y,z"] {
        let std_pieces: Vec<String> = text.split(',').map(|p| p.to_string()).collect();
        assert_eq!(split_text(text, ','), std_pieces);
    }
}

#[test]
fn complete_properties_give_the_settings() {
    assert_eq!(server_settings(&complete()), Ok(expected()));
}

#[test]
fn last_value_of_a_repeated_key_counts() {
    let settings = server_settings(&with("rpc.port", "999")).unwrap();
    assert_eq!(settings.rpc_port, 999);
    let mut first = pairs(&[("server.id", "zzz")]);
    first.extend(complete());
    assert_eq!(server_settings(&first), Ok(expected()));
    assert_eq!(
        server_settings(&with("server.id", "zzz")),
        Err(ConfigError::Malformed(SettingKey::ServerId))
    );
}

#[test]
fn each_missing_key_is_reported() {
    for (name, key) in [
        ("rpc.port", SettingKey::RpcPort),
        ("server.id", SettingKey::ServerId),
        ("server.size", SettingKey::ServerSize),
        ("network.servers", SettingKey::NetworkServers),
        ("graph.vineyard.object.id", SettingKey::GraphObjectId),
    ] {
        assert_eq!(key.name(), name);
        assert_eq!(server_settings(&without(name)), Err(ConfigError::Missing(key)));
    }
    assert_eq!(server_settings(&Vec::new()), Err(ConfigError::Missing(SettingKey::RpcPort)));
}

#[test]
fn each_malformed_value_is_reported() {
    assert_eq!(
        server_settings(&with("rpc.port", "65536")),
        Err(ConfigError::Malformed(SettingKey::RpcPort))
    );
    assert_eq!(
        server_settings(&with("server.id", "-1")),
        Err(ConfigError::Malformed(SettingKey::ServerId))
    );
    assert_eq!(
        server_settings(&with("server.size", "two")),
        Err(ConfigError::Malformed(SettingKey::ServerSize))
    );
    assert_eq!(
        server_settings(&with("graph.vineyard.object.id", "")),
        Err(ConfigError::Malformed(SettingKey::GraphObjectId))
    );
    assert_eq!(
        server_settings(&with("network.servers", "a:1,b")),
        Err(ConfigError::Malformed(SettingKey::NetworkServers))
    );
    assert_eq!(
        server_settings(&with("network.servers", "a:1,b:port")),
        Err(ConfigError::Malformed(SettingKey::NetworkServers))
    );
    assert_eq!(
        server_settings(&with("network.servers", "a:1,b:70000")),
        Err(ConfigError::Malformed(SettingKey::NetworkServers))
    );
}

#[test]
fn errors_come_in_the_order_of_reading() {
    let mut broken = pairs(&[("rpc.port", "x"), ("server.size", "y")]);
    assert_eq!(server_settings(&broken), Err(ConfigError::Malformed(SettingKey::RpcPort)));
    broken.push(("rpc.port".to_string(), "1".to_string()));
    assert_eq!(server_settings(&broken), Err(ConfigError::Missing(SettingKey::ServerId)));
    let late = with("network.servers", "a:1");
    assert_eq!(server_settings(&late), Err(ConfigError::ServerCountMismatch));
    let mut later = without("graph.vineyard.object.id");
    later.push(("network.servers".to_string(), "a:1".to_string()));
    assert_eq!(server_settings(&later), Err(ConfigError::Missing(SettingKey::GraphObjectId)));
}

#[test]
fn number_of_addresses_must_equal_server_size() {
    assert_eq!(
        server_settings(&with("server.size", "3")),
        Err(ConfigError::ServerCountMismatch)
    );
    assert_eq!(
        server_settings(&with("network.servers", "a:1,b:2,c:3")),
        Err(ConfigError::ServerCountMismatch)
    );
    let mut single = with("server.size", "1");
    single.push(("network.servers".to_string(), ":80:ignored".to_string()));
    let settings = server_settings(&single).unwrap();
    assert_eq!(settings.servers, vec![ServerAddress { hostname: String::new(), port: 80 }]);
    let mut none = with("server.size", "0");
    none.push(("network.servers".to_string(), String::new()));
    assert_eq!(server_settings(&none), Err(ConfigError::ServerCountMismatch));
}

#[test]
fn properties_text_is_parsed_and_read() {
    let text = b"# executor settings\n\
        rpc.port = 1234\n\
        server.id: 1\n\
        server.size=2\n\
        \n\
        network.servers = 127.0.0.1:11234,\\\n    host-b:11235\n\
        graph.vineyard.object.id = -77\n";
    assert_eq!(load_server_settings(text), Ok(expected()));
}

#[test]
fn properties_text_with_missing_key_is_reported() {
    let text = b"rpc.port = 1234\nserver.id = 1\n";
    assert_eq!(load_server_settings(text), Err(ConfigError::Missing(SettingKey::ServerSize)));
    assert_eq!(load_server_settings(b""), Err(ConfigError::Missing(SettingKey::RpcPort)));
}

#[test]
fn properties_text_that_cannot_be_parsed_is_unreadable() {
    assert_eq!(load_server_settings(b"=x"), Err(ConfigError::Unreadable));
    assert_eq!(load_server_settings(b"rpc.port=1\n: 2\n"), Err(ConfigError::Unreadable));
    assert_eq!(load_server_settings(b"rpc.port=\\u12zz\n"), Err(ConfigError::Unreadable));
}

#[test]
fn properties_text_with_escapes_is_unescaped() {
    let text = b"rpc.port=\\u0031\\u0032\nserver.id=3\nserver.size=1\n\
        network.servers=h\\:9\ngraph.vineyard.object.id=5\n";
    let settings = load_server_settings(text).unwrap();
    assert_eq!(settings.rpc_port, 12);
    assert_eq!(settings.servers, vec![ServerAddress { hostname: "h".to_string(), port: 9 }]);
}

#[test]
fn connection_uri_takes_defaults_for_what_is_not_given() {
    assert_eq!(
        connection_uri(None, None, None),
        "gart://127.0.0.1:2379?read_epoch=0&meta_prefix=gart_meta_"
    );
    assert_eq!(
        connection_uri(Some("etcd:2379"), Some("12"), Some("meta_")),
        "gart://etcd:2379?read_epoch=12&meta_prefix=meta_"
    );
    assert_eq!(
        connection_uri(None, Some("3"), None),
        "gart://127.0.0.1:2379?read_epoch=3&meta_prefix=gart_meta_"
    );
}

use keyring_proxy::config::{
    default_auth_header, default_failover_statuses, default_markers, AuthHeader, Config,
    ConfigError, RawConfig,
};
use keyring_proxy::environment::Environment;
use keyring_proxy::expand::{env_names, expand_env, ExpandError};

fn raw(auth_header: &str, keys: &[&str], upstream: &str) -> RawConfig {
    RawConfig {
        listen: "127.0.0.1:8080".to_string(),
        upstream: upstream.to_string(),
        auth_header: auth_header.to_string(),
        keys: keys.iter().map(|k| k.to_string()).collect(),
        exhaustion_markers: default_markers(),
        failover_statuses: default_failover_statuses(),
    }
}

fn env(vars: &[(&str, &str)]) -> Environment {
    let mut env = Environment::new();
    for (name, value) in vars {
        env.set(name.to_string(), value.to_string());
    }
    env
}

fn refused(raw: RawConfig, env: &Environment) -> ConfigError {
    match Config::from_raw(raw, env) {
        Ok(_) => panic!("the configuration is accepted"),
        Err(error) => error,
    }
}

#[test]
fn auth_header_names_and_values() {
    assert_eq!(AuthHeader::XApiKey.header_name(), "x-api-key");
    assert_eq!(AuthHeader::Authorization.header_name(), "authorization");
    assert_eq!(AuthHeader::XApiKey.header_value("k1"), "k1");
    assert_eq!(AuthHeader::Authorization.header_value("k1"), "Bearer k1");
}

#[test]
fn defaults_of_a_configuration() {
    assert_eq!(default_auth_header(), "x-api-key");
    assert_eq!(default_markers(), vec!["Usage limit reached".to_string()]);
    assert_eq!(default_failover_statuses(), vec![401, 402, 403, 429]);
}

#[test]
fn accepted_configuration() {
    let env = env(&[("KEY", " from-env\n")]);
    let raw = raw("X-Api-Key", &["direct", "${KEY}", "\u{3000}a-${KEY}-b\t"], "https://up//");
    let config = Config::from_raw(raw, &env).unwrap();
    assert_eq!(config.listen, "127.0.0.1:8080");
    assert_eq!(config.upstream, "https://up");
    assert_eq!(config.auth_header, AuthHeader::XApiKey);
    assert_eq!(config.keys, vec!["direct", "from-env", "a- from-env\n-b"]);
    assert_eq!(config.exhaustion_markers, vec!["Usage limit reached"]);
    assert_eq!(config.failover_statuses, vec![401, 402, 403, 429]);
}

#[test]
fn auth_header_in_any_case() {
    for setting in ["authorization", "AUTHORIZATION", "AuthoriZation"] {
        let config = Config::from_raw(raw(setting, &["k"], "u"), &env(&[])).unwrap();
        assert_eq!(config.auth_header, AuthHeader::Authorization);
    }
}

#[test]
fn unknown_auth_header_is_refused_first() {
    let error = refused(raw("Cookie-\u{c9}", &["${MISSING}"], ""), &env(&[]));
    assert!(matches!(&error, ConfigError::UnknownAuthHeader { given } if given == "cookie-\u{c9}"));
    assert_eq!(
        error.message(),
        "auth_header должен быть 'x-api-key' или 'authorization', получено 'cookie-\u{c9}'"
    );
}

#[test]
fn first_bad_key_is_reported() {
    let error = refused(raw("x-api-key", &["ok", "${A}", "${B"], "u"), &env(&[]));
    assert_eq!(error.message(), "ключ #1 не удалось раскрыть");
    match error {
        ConfigError::Key { index, cause } => {
            assert_eq!(index, 1);
            assert_eq!(cause.message(), "переменная окружения 'A' не установлена");
        }
        _ => panic!("another error"),
    }
}

#[test]
fn empty_key_is_refused() {
    let mut keys = vec!["k"; 12];
    keys.push("${BLANK}");
    let error = refused(raw("x-api-key", &keys, "u"), &env(&[("BLANK", " \u{a0}\u{2028}")]));
    assert!(matches!(error, ConfigError::EmptyKey { index: 12 }));
    assert_eq!(error.message(), "ключ #12 пустой после раскрытия ${ENV}");
}

#[test]
fn keys_and_upstream_are_needed() {
    let error = refused(raw("x-api-key", &[], ""), &env(&[]));
    assert!(matches!(error, ConfigError::NoKeys));
    assert_eq!(error.message(), "не задан ни один ключ в `keys`");
    let error = refused(raw("x-api-key", &["k"], "///"), &env(&[]));
    assert!(matches!(error, ConfigError::NoUpstream));
    assert_eq!(error.message(), "`upstream` не задан");
}

#[test]
fn variables_that_are_not_named_do_not_matter() {
    let names = raw("x-api-key", &["${A}", "b", "${C}${D} ${E"], "u").env_names();
    assert_eq!(names, vec!["A", "C", "D"]);
    let few = env(&[("A", "1"), ("C", "2")]);
    let many = env(&[("B", "9"), ("A", "0"), ("C", "2"), ("A", "1")]);
    let one = Config::from_raw(raw("x-api-key", &["${A}", "${C}"], "u"), &few).unwrap();
    let two = Config::from_raw(raw("x-api-key", &["${A}", "${C}"], "u"), &many).unwrap();
    assert_eq!(one.keys, two.keys);
    assert_eq!(one.keys, vec!["1", "2"]);
}

#[test]
fn environment_gives_back_what_was_set() {
    let mut env = Environment::new();
    assert_eq!(env.get("A"), None);
    env.set("A".to_string(), "1".to_string());
    env.set("B".to_string(), "2".to_string());
    env.set("A".to_string(), "3".to_string());
    assert_eq!(env.get("A"), Some("3".to_string()));
    assert_eq!(env.get("B"), Some("2".to_string()));
    assert_eq!(env.get("a"), None);
}

#[test]
fn expansion_of_references() {
    let env = env(&[("A", "1"), ("Б", "${A}"), ("", "empty")]);
    let expand = |text: &str| expand_env(text, &env).unwrap();
    assert_eq!(expand("plain $ { } text"), "plain $ { } text");
    assert_eq!(expand(""), "");
    assert_eq!(expand("${A}"), "1");
    assert_eq!(expand("x${A}y${A}}z"), "x1y1}z");
    assert_eq!(expand("${Б}"), "${A}");
    assert_eq!(expand("$${A}"), "$1");
    assert_eq!(expand("${}"), "empty");
    assert_eq!(env_names("a${B}${A}$"), vec!["B", "A"]);
}

#[test]
fn expansion_errors_in_order() {
    let env = env(&[("A", "1")]);
    let error = expand_env("${A} ${B} ${", &env).unwrap_err();
    assert!(matches!(&error, ExpandError::Missing { name } if name == "B"));
    let error = expand_env("${A} ${B", &env).unwrap_err();
    assert!(matches!(error, ExpandError::Unclosed));
    assert_eq!(error.message(), "незакрытая ${...} в значении ключа");
    let error = expand_env("${${A}", &env).unwrap_err();
    assert!(matches!(&error, ExpandError::Missing { name } if name == "${A"));
}

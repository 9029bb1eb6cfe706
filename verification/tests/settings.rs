use rmqtty::args::Args;
use rmqtty::config::{Config, Session};
use rmqtty::mqtt::{ClientConfig, DEFAULT_PORT, KEEP_ALIVE_SECS, REQUEST_CHANNEL_CAPACITY};

fn no_args() -> Args {
    Args { hostname: None, port: None, client_id: None, topic: None, user: None, password: None, profile: None }
}

fn session(host: &str, topics: Option<Vec<&str>>) -> Session {
    Session {
        host: host.to_string(),
        port: None,
        tls: None,
        ca_cert: None,
        client_cert: None,
        client_key: None,
        user: Some("user".to_string()),
        password: Some("SECRET-REDACTED".to_string()),
        topics: topics.map(|v| v.into_iter().map(|s| s.to_string()).collect()),
    }
}

#[test]
fn defaults_from_readme() {
    let c = ClientConfig::from_args(&no_args());
    assert_eq!(c.hostname, "localhost");
    assert_eq!(c.port, 1883);
    assert_eq!(DEFAULT_PORT, 1883);
    assert_eq!(c.client_id, "rmqtty-client");
    assert_eq!(c.topic, "#");
    assert_eq!(c.user, None);
    assert_eq!(c.password, None);
    assert_eq!(c.credentials(), None);
    assert_eq!(KEEP_ALIVE_SECS, 5);
    assert_eq!(REQUEST_CHANNEL_CAPACITY, 10);
}

#[test]
fn command_line_values_are_taken() {
    let args = Args {
        hostname: Some("broker".to_string()),
        port: Some(8883),
        client_id: Some("me".to_string()),
        topic: Some("home/#".to_string()),
        user: Some("u".to_string()),
        password: Some("p".to_string()),
        profile: None,
    };
    let c = ClientConfig::from_args(&args);
    assert_eq!(c.hostname, "broker");
    assert_eq!(c.port, 8883);
    assert_eq!(c.client_id, "me");
    assert_eq!(c.topic, "home/#");
    assert_eq!(c.credentials(), Some(("u".to_string(), "p".to_string())));
}

#[test]
fn credentials_need_both_parts() {
    let mut args = no_args();
    args.user = Some("u".to_string());
    assert_eq!(ClientConfig::from_args(&args).credentials(), None);
}

#[test]
fn session_settings_with_first_topic() {
    let c = ClientConfig::from_session(&session("192.168.1.10", Some(vec!["home/#", "other"])));
    assert_eq!(c.hostname, "192.168.1.10");
    assert_eq!(c.port, 1883);
    assert_eq!(c.client_id, "rmqtty-client");
    assert_eq!(c.topic, "home/#");
    assert_eq!(c.user.as_deref(), Some("user"));
    let c = ClientConfig::from_session(&session("h", Some(vec![])));
    assert_eq!(c.topic, "#");
    let c = ClientConfig::from_session(&session("h", None));
    assert_eq!(c.topic, "#");
}

#[test]
fn command_line_overrides_session() {
    let mut c = ClientConfig::from_session(&session("h", Some(vec!["t"])));
    let mut args = no_args();
    args.port = Some(1);
    args.topic = Some("x".to_string());
    c.apply_cli_overrides(&args);
    assert_eq!(c.client_id, "rmqtty-client");
    args.client_id = Some("given".to_string());
    c.apply_cli_overrides(&args);
    assert_eq!(c.hostname, "h");
    assert_eq!(c.port, 1);
    assert_eq!(c.topic, "x");
    assert_eq!(c.client_id, "given");
    assert_eq!(c.user.as_deref(), Some("user"));
    args.hostname = Some("b".to_string());
    args.user = Some("v".to_string());
    args.password = Some("w".to_string());
    c.apply_cli_overrides(&args);
    assert_eq!(c.hostname, "b");
    assert_eq!(c.user.as_deref(), Some("v"));
    assert_eq!(c.password.as_deref(), Some("w"));
}

#[test]
fn sessions_are_found_by_name() {
    let cfg = Config {
        sessions: vec![
            ("home".to_string(), session("192.168.1.10", None)),
            ("work".to_string(), session("10.0.0.1", None)),
        ],
    };
    assert_eq!(cfg.get_sessions("work").unwrap().host, "10.0.0.1");
    assert_eq!(cfg.get_sessions("home").unwrap().host, "192.168.1.10");
    match cfg.get_sessions("nope") {
        Err(e) => assert_eq!(e, "Session 'nope' not found"),
        Ok(_) => panic!("no such session"),
    }
    let empty = Config { sessions: vec![] };
    assert_eq!(empty.get_sessions("").err().unwrap(), "Session '' not found");
}

#[test]
fn client_is_built_without_connecting() {
    let c = ClientConfig::from_args(&no_args());
    let client = rmqtty::mqtt::Client::new(&c);
    let opts = client.eventloop.mqtt_options.clone();
    assert_eq!(opts.broker_address(), ("localhost".to_string(), 1883));
    assert_eq!(opts.client_id(), "rmqtty-client");
    assert_eq!(opts.keep_alive(), std::time::Duration::from_secs(5));
    assert_eq!(opts.credentials(), None);
    let mut args = no_args();
    args.user = Some("u".to_string());
    args.password = Some("p".to_string());
    let client = rmqtty::mqtt::Client::new(&ClientConfig::from_args(&args));
    assert_eq!(client.eventloop.mqtt_options.credentials(), Some(("u".to_string(), "p".to_string())));
}

fn two_sessions() -> Config {
    Config {
        sessions: vec![
            ("home".to_string(), session("192.168.1.10", Some(vec!["home/#"]))),
            ("work".to_string(), session("10.0.0.1", None)),
        ],
    }
}

#[test]
fn resolve_uses_profile_with_cli_on_top() {
    let cfg = two_sessions();
    let mut args = no_args();
    args.profile = Some("home".to_string());
    args.port = Some(1884);
    args.client_id = Some("mine".to_string());
    let c = ClientConfig::resolve(&args, Some(&cfg));
    assert_eq!(c.hostname, "192.168.1.10");
    assert_eq!(c.port, 1884);
    assert_eq!(c.topic, "home/#");
    assert_eq!(c.client_id, "mine");
    assert_eq!(c.user.as_deref(), Some("user"));
}

#[test]
fn resolve_falls_back_to_command_line() {
    let cfg = two_sessions();
    let mut args = no_args();
    args.profile = Some("away".to_string());
    args.client_id = Some("mine".to_string());
    let c = ClientConfig::resolve(&args, Some(&cfg));
    assert_eq!(c.hostname, "localhost");
    assert_eq!(c.client_id, "mine");
    assert_eq!(c.user, None);
    args.profile = Some("home".to_string());
    let c = ClientConfig::resolve(&args, None);
    assert_eq!(c.hostname, "localhost");
    args.profile = None;
    let c = ClientConfig::resolve(&args, Some(&cfg));
    assert_eq!(c.hostname, "localhost");
}

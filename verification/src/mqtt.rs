use rumqttc::{AsyncClient, EventLoop, MqttOptions};
use std::time::Duration;
use vstd::prelude::*;

use crate::args::Args;
use crate::config::{find_session, Config, Session};
use crate::text::{clone_option_string, string_or, text_or};

verus! {

/// The local time of day at which a message arrived.
#[derive(Clone, Copy, Debug, PartialEq, Eq, Structural)]
pub struct Timestamp {
    pub hour: u8,
    pub minute: u8,
    pub second: u8,
}

/// A message received from the broker.
pub struct Message {
    pub topic: String,
    pub payload: String,
    pub ts: Timestamp,
}

/// What the connection to the broker reports.
pub enum MqttEvent {
    Connected,
    Disconnected,
    Publish(Message),
}

/// Seconds of silence after which the client pings the broker.
pub const KEEP_ALIVE_SECS: u64 = 5;

/// Capacity of the queue of requests to the broker.
pub const REQUEST_CHANNEL_CAPACITY: usize = 10;

/// The port of an MQTT broker unless told otherwise.
pub const DEFAULT_PORT: u16 = 1883;

/// How to reach the broker and what to subscribe to.
pub struct ClientConfig {
    pub hostname: String,
    pub port: u16,
    pub client_id: String,
    pub user: Option<String>,
    pub password: Option<String>,
    pub topic: String,
}

/// The host used when none is given.
pub open spec fn default_host() -> Seq<char> {
    "localhost"@
}

/// The client id used when none is given.
pub open spec fn default_client_id() -> Seq<char> {
    "rmqtty-client"@
}

/// The topic filter used when none is given: every topic.
pub open spec fn default_topic() -> Seq<char> {
    "#"@
}

/// The first topic of a session, or the default where it lists none.
pub open spec fn session_topic(s: Session) -> Seq<char> {
    match s.topics {
        Some(v) => if v@.len() > 0 {
            v@[0]@
        } else {
            default_topic()
        },
        None => default_topic(),
    }
}

/// The text of an optional string.
pub open spec fn opt_text(o: Option<String>) -> Option<Seq<char>> {
    match o {
        Some(s) => Some(s@),
        None => None,
    }
}

/// The abstract content of a `ClientConfig`.
pub struct ClientSettings {
    pub hostname: Seq<char>,
    pub port: u16,
    pub client_id: Seq<char>,
    pub user: Option<Seq<char>>,
    pub password: Option<Seq<char>>,
    pub topic: Seq<char>,
}

impl View for ClientConfig {
    type V = ClientSettings;

    open spec fn view(&self) -> ClientSettings {
        ClientSettings {
            hostname: self.hostname@,
            port: self.port,
            client_id: self.client_id@,
            user: opt_text(self.user),
            password: opt_text(self.password),
            topic: self.topic@,
        }
    }
}

/// The settings given on the command line, with the defaults where an option is missing.
pub open spec fn settings_from_args(a: Args) -> ClientSettings {
    ClientSettings {
        hostname: text_or(a.hostname, default_host()),
        port: match a.port {
            Some(p) => p,
            None => DEFAULT_PORT,
        },
        client_id: text_or(a.client_id, default_client_id()),
        user: opt_text(a.user),
        password: opt_text(a.password),
        topic: text_or(a.topic, default_topic()),
    }
}

/// The settings of a stored session: its host, its port or the default, the default client
/// id, its credentials, and its first topic or the default.
pub open spec fn settings_from_session(s: Session) -> ClientSettings {
    ClientSettings {
        hostname: s.host@,
        port: match s.port {
            Some(p) => p,
            None => DEFAULT_PORT,
        },
        client_id: default_client_id(),
        user: opt_text(s.user),
        password: opt_text(s.password),
        topic: session_topic(s),
    }
}

/// `c` with every option given on the command line in place of the configured one.
pub open spec fn with_cli_overrides(c: ClientSettings, a: Args) -> ClientSettings {
    ClientSettings {
        client_id: match a.client_id {
            Some(id) => id@,
            None => c.client_id,
        },
        hostname: match a.hostname {
            Some(h) => h@,
            None => c.hostname,
        },
        port: match a.port {
            Some(p) => p,
            None => c.port,
        },
        topic: match a.topic {
            Some(t) => t@,
            None => c.topic,
        },
        user: match a.user {
            Some(u) => Some(u@),
            None => c.user,
        },
        password: match a.password {
            Some(pw) => Some(pw@),
            None => c.password,
        },
    }
}

/// The settings the explorer connects with: those of the selected profile where it is
/// configured, with the command-line options on top; otherwise the command line alone.
pub open spec fn resolved_settings(a: Args, config: Option<Config>) -> ClientSettings {
    match (a.profile, config) {
        (Some(name), Some(cfg)) => match find_session(cfg.sessions@, name@) {
            Some(s) => with_cli_overrides(settings_from_session(s), a),
            None => settings_from_args(a),
        },
        _ => settings_from_args(a),
    }
}

impl ClientConfig {
    /// The configuration given on the command line, with the defaults where an option is missing.
    pub fn from_args(args: &Args) -> (c: Self)
        ensures
            c@ == settings_from_args(*args),
    {
        Self {
            hostname: string_or(&args.hostname, "localhost"),
            port: match args.port {
                Some(p) => p,
                None => DEFAULT_PORT,
            },
            client_id: string_or(&args.client_id, "rmqtty-client"),
            user: clone_option_string(&args.user),
            password: clone_option_string(&args.password),
            topic: string_or(&args.topic, "#"),
        }
    }

    /// The configuration of a stored session: its host, its port or the default, the
    /// default client id, its credentials, and its first topic or the default.
    pub fn from_session(s: &Session) -> (c: Self)
        ensures
            c@ == settings_from_session(*s),
            s.port matches Some(p) ==> c.port == p,
            s.port is None ==> c.port == 1883,
            c.hostname@ == s.host@,
            c.user == s.user,
            c.password == s.password,
    {
        let topic = match &s.topics {
            Some(v) => if v.len() > 0 {
                v[0].clone()
            } else {
                String::from_str("#")
            },
            None => String::from_str("#"),
        };
        Self {
            hostname: s.host.clone(),
            port: match s.port {
                Some(p) => p,
                None => DEFAULT_PORT,
            },
            client_id: String::from_str("rmqtty-client"),
            user: clone_option_string(&s.user),
            password: clone_option_string(&s.password),
            topic,
        }
    }

    /// Lets every option given on the command line take the place of the configured one.
    pub fn apply_cli_overrides(&mut self, args: &Args)
        ensures
            final(self)@ == with_cli_overrides(old(self)@, *args),
            args.client_id is None ==> final(self).client_id == old(self).client_id,
            args.hostname is None ==> final(self).hostname == old(self).hostname,
            args.port is None ==> final(self).port == old(self).port,
            args.topic is None ==> final(self).topic == old(self).topic,
            args.user is None ==> final(self).user == old(self).user,
            args.password is None ==> final(self).password == old(self).password,
    {
        if let Some(id) = &args.client_id {
            self.client_id = id.clone();
        }
        if let Some(h) = &args.hostname {
            self.hostname = h.clone();
        }
        if let Some(p) = args.port {
            self.port = p;
        }
        if let Some(t) = &args.topic {
            self.topic = t.clone();
        }
        if let Some(u) = &args.user {
            self.user = Some(u.clone());
        }
        if let Some(pw) = &args.password {
            self.password = Some(pw.clone());
        }
    }

    /// The configuration to connect with: that of the session named by the profile option
    /// where `config` holds one, with the command-line options on top; otherwise the
    /// command line alone.
    pub fn resolve(args: &Args, config: Option<&Config>) -> (c: Self)
        ensures
            c@ == resolved_settings(*args, match config { Some(cfg) => Some(*cfg), None => None }),
    {
        if let Some(name) = &args.profile {
            if let Some(cfg) = config {
                if let Ok(s) = cfg.get_sessions(name.as_str()) {
                    let mut c = ClientConfig::from_session(s);
                    c.apply_cli_overrides(args);
                    return c;
                }
            }
        }
        ClientConfig::from_args(args)
    }

    /// The user name and password to log in with: both, where both are configured.
    pub fn credentials(&self) -> (r: Option<(String, String)>)
        ensures
            r == match (self.user, self.password) {
                (Some(u), Some(pw)) => Some((u, pw)),
                _ => None,
            },
    {
        match (&self.user, &self.password) {
            (Some(u), Some(pw)) => Some((u.clone(), pw.clone())),
            _ => None,
        }
    }
}

/// An option given on the command line always wins, whether or not a profile supplies it.
pub proof fn lemma_cli_options_win(a: Args, config: Option<Config>)
    ensures
        a.client_id matches Some(id) ==> resolved_settings(a, config).client_id == id@,
        a.hostname matches Some(h) ==> resolved_settings(a, config).hostname == h@,
        a.port matches Some(p) ==> resolved_settings(a, config).port == p,
        a.topic matches Some(t) ==> resolved_settings(a, config).topic == t@,
        a.user matches Some(u) ==> resolved_settings(a, config).user == Some(u@),
        a.password matches Some(pw) ==> resolved_settings(a, config).password == Some(pw@),
{
}

/// A stored session connects to its own host, on its own port where it names one and on
/// 1883 where it does not, and logs in with its own user name and password.
pub proof fn lemma_session_settings(s: Session)
    ensures
        s.port matches Some(p) ==> settings_from_session(s).port == p,
        s.port is None ==> settings_from_session(s).port == 1883,
        settings_from_session(s).hostname == s.host@,
        settings_from_session(s).user == opt_text(s.user),
        settings_from_session(s).password == opt_text(s.password),
{
}

/// An option left off the command line keeps the configured value, whatever it is.
pub proof fn lemma_unset_options_keep_config(c: ClientSettings, a: Args)
    ensures
        a.client_id is None ==> with_cli_overrides(c, a).client_id == c.client_id,
        a.hostname is None ==> with_cli_overrides(c, a).hostname == c.hostname,
        a.port is None ==> with_cli_overrides(c, a).port == c.port,
        a.topic is None ==> with_cli_overrides(c, a).topic == c.topic,
        a.user is None ==> with_cli_overrides(c, a).user == c.user,
        a.password is None ==> with_cli_overrides(c, a).password == c.password,
{
}

/// Where the profile option names a configured session, every option left off the command
/// line comes from that session: its host, its port (1883 where it names none), and its
/// user name and password.
pub proof fn lemma_profile_supplies_unset_options(a: Args, cfg: Config, name: String, s: Session)
    requires
        a.profile == Some(name),
        find_session(cfg.sessions@, name@) == Some(s),
    ensures
        a.hostname is None ==> resolved_settings(a, Some(cfg)).hostname == s.host@,
        a.port is None && s.port is None ==> resolved_settings(a, Some(cfg)).port == 1883,
        a.port is None ==> (s.port matches Some(p) ==> resolved_settings(a, Some(cfg)).port == p),
        a.user is None ==> resolved_settings(a, Some(cfg)).user == opt_text(s.user),
        a.password is None ==> resolved_settings(a, Some(cfg)).password == opt_text(s.password),
{
}

#[verifier::external_type_specification]
#[verifier::external_body]
pub struct ExMqttOptions(MqttOptions);

#[verifier::external_type_specification]
#[verifier::external_body]
pub struct ExAsyncClient(AsyncClient);

#[verifier::external_type_specification]
#[verifier::external_body]
pub struct ExEventLoop(EventLoop);

/// What the client options say about the connection: client id, broker host and port,
/// keep-alive in seconds, and the user name and password to log in with.
pub struct OptionsModel {
    pub client_id: Seq<char>,
    pub host: Seq<char>,
    pub port: u16,
    pub keep_alive_secs: nat,
    pub credentials: Option<(Seq<char>, Seq<char>)>,
}

/// What an event loop was made with: its options and the capacity of its request queue.
pub struct EventLoopModel {
    pub options: OptionsModel,
    pub request_capacity: usize,
}

/// The connection settings that a `rumqttc::MqttOptions` holds.
pub uninterp spec fn options_model(o: MqttOptions) -> OptionsModel;

/// The options and request queue capacity that a `rumqttc::EventLoop` was made with.
pub uninterp spec fn eventloop_model(e: EventLoop) -> EventLoopModel;

/// Whether `client` sends its requests into the request queue that `eventloop` serves.
pub uninterp spec fn feeds(client: AsyncClient, eventloop: EventLoop) -> bool;

/// `rumqttc::MqttOptions::new`: options for client `id` at `host:port`, keep-alive 60
/// seconds and no credentials, as the constructor's source sets them; it does not panic.
#[verifier::external_body]
fn mqtt_options(id: &String, host: &String, port: u16) -> (o: MqttOptions)
    ensures
        options_model(o) == (OptionsModel {
            client_id: id@,
            host: host@,
            port,
            keep_alive_secs: 60,
            credentials: None,
        }),
{
    MqttOptions::new(id, host, port)
}

/// `rumqttc::MqttOptions::set_keep_alive` with a whole number of seconds: the keep-alive
/// becomes `secs` seconds and the other settings stay. It panics only on a duration below one
/// second other than zero, which whole seconds never are.
#[verifier::external_body]
fn set_keep_alive(opts: &mut MqttOptions, secs: u64)
    ensures
        options_model(*final(opts)) == (OptionsModel { keep_alive_secs: secs as nat, ..options_model(*old(opts)) }),
{
    opts.set_keep_alive(Duration::from_secs(secs));
}

/// `rumqttc::MqttOptions::set_credentials`: the credentials become `user` and `password`; the
/// other settings stay.
#[verifier::external_body]
fn set_credentials(opts: &mut MqttOptions, user: String, password: String)
    ensures
        options_model(*final(opts)) == (OptionsModel { credentials: Some((user@, password@)), ..options_model(*old(opts)) }),
{
    opts.set_credentials(user, password);
}

/// `rumqttc::AsyncClient::new`: a client handle and the event loop that serves it; the event
/// loop keeps `opts` and a request queue of `cap` entries, and the handle holds the sending
/// end of that queue.
#[verifier::external_body]
fn new_async_client(opts: MqttOptions, cap: usize) -> (r: (AsyncClient, EventLoop))
    ensures
        eventloop_model(r.1) == (EventLoopModel { options: options_model(opts), request_capacity: cap }),
        feeds(r.0, r.1),
{
    AsyncClient::new(opts, cap)
}

/// The connection to the broker: the handle that sends requests and the loop that carries
/// them out and reports what the broker sends.
pub struct Client {
    pub client: AsyncClient,
    pub eventloop: EventLoop,
}

impl Client {
    /// A client for the configured broker, client id, keep-alive of `KEEP_ALIVE_SECS`, the
    /// credentials where both are configured, and a request queue of
    /// `REQUEST_CHANNEL_CAPACITY`. Nothing connects until the event loop is polled.
    pub fn new(config: &ClientConfig) -> (c: Client)
        ensures
            eventloop_model(c.eventloop) == (EventLoopModel {
                options: OptionsModel {
                    client_id: config.client_id@,
                    host: config.hostname@,
                    port: config.port,
                    keep_alive_secs: KEEP_ALIVE_SECS as nat,
                    credentials: match (config.user, config.password) {
                        (Some(u), Some(pw)) => Some((u@, pw@)),
                        _ => None,
                    },
                },
                request_capacity: REQUEST_CHANNEL_CAPACITY,
            }),
            feeds(c.client, c.eventloop),
    {
        let mut opts = mqtt_options(&config.client_id, &config.hostname, config.port);
        set_keep_alive(&mut opts, KEEP_ALIVE_SECS);
        if let Some((user, pw)) = config.credentials() {
            set_credentials(&mut opts, user, pw);
        }
        let (client, eventloop) = new_async_client(opts, REQUEST_CHANNEL_CAPACITY);
        Client { client, eventloop }
    }
}

} // verus!

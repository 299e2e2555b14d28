//! The configuration of a server: its sections, their defaults, and the
//! setting of one value by its dotted name.

use crate::text::{chars_of, cut, number_of, parse_number, pieces, split_ranges, NumberError};
use crate::types::string_views;
use vstd::prelude::*;

verus! {

/// The section `server`.
#[derive(Debug, Clone)]
pub struct ServerConfig {
    pub http_port: u16,
    pub tcp_port: u16,
    pub num_shards: usize,
    pub cleanup_interval_seconds: u64,
    pub allowed_origin: Option<String>,
}

/// The section `authentication`.
#[derive(Debug, Clone)]
pub struct AuthConfig {
    pub username: String,
    pub password: String,
    pub token_lifetime_seconds: u64,
}

/// The section `cache`: the bounds on what may be stored.
#[derive(Debug, Clone)]
pub struct CacheConfig {
    pub default_ttl_seconds: u64,
    pub max_tags_per_entry: usize,
    pub max_key_length: usize,
    pub max_value_length: usize,
}

/// The section `logging`.
#[derive(Debug, Clone)]
pub struct LoggingConfig {
    pub level: String,
    pub format: String,
    pub file: Option<String>,
}

/// The section `performance`.
#[derive(Debug, Clone)]
pub struct PerformanceConfig {
    pub tcp_nodelay: bool,
    pub tcp_keepalive_seconds: u64,
    pub max_connections: usize,
}

/// The section `security`.
#[derive(Debug, Clone)]
pub struct SecurityConfig {
    pub require_auth: bool,
    pub rate_limit_per_minute: u64,
    pub allowed_ips: Option<Vec<String>>,
}

/// The configuration of a server.
#[derive(Debug, Clone)]
pub struct TagCacheConfig {
    pub server: ServerConfig,
    pub authentication: AuthConfig,
    pub cache: CacheConfig,
    pub logging: LoggingConfig,
    pub performance: PerformanceConfig,
    pub security: SecurityConfig,
}

/// The characters of an optional text.
pub open spec fn text_view(s: Option<String>) -> Option<Seq<char>> {
    match s {
        Some(s) => Some(s@),
        None => None,
    }
}

/// The characters of the texts of an optional list.
pub open spec fn list_view(s: Option<Vec<String>>) -> Option<Seq<Seq<char>>> {
    match s {
        Some(s) => Some(string_views(s@)),
        None => None,
    }
}

/// The values of a configuration, section by section.
pub struct ConfigView {
    pub http_port: u16,
    pub tcp_port: u16,
    pub num_shards: usize,
    pub cleanup_interval_seconds: u64,
    pub allowed_origin: Option<Seq<char>>,
    pub username: Seq<char>,
    pub password: Seq<char>,
    pub token_lifetime_seconds: u64,
    pub default_ttl_seconds: u64,
    pub max_tags_per_entry: usize,
    pub max_key_length: usize,
    pub max_value_length: usize,
    pub level: Seq<char>,
    pub format: Seq<char>,
    pub file: Option<Seq<char>>,
    pub tcp_nodelay: bool,
    pub tcp_keepalive_seconds: u64,
    pub max_connections: usize,
    pub require_auth: bool,
    pub rate_limit_per_minute: u64,
    pub allowed_ips: Option<Seq<Seq<char>>>,
}

impl View for TagCacheConfig {
    type V = ConfigView;

    open spec fn view(&self) -> ConfigView {
        ConfigView {
            http_port: self.server.http_port,
            tcp_port: self.server.tcp_port,
            num_shards: self.server.num_shards,
            cleanup_interval_seconds: self.server.cleanup_interval_seconds,
            allowed_origin: text_view(self.server.allowed_origin),
            username: self.authentication.username@,
            password: self.authentication.password@,
            token_lifetime_seconds: self.authentication.token_lifetime_seconds,
            default_ttl_seconds: self.cache.default_ttl_seconds,
            max_tags_per_entry: self.cache.max_tags_per_entry,
            max_key_length: self.cache.max_key_length,
            max_value_length: self.cache.max_value_length,
            level: self.logging.level@,
            format: self.logging.format@,
            file: text_view(self.logging.file),
            tcp_nodelay: self.performance.tcp_nodelay,
            tcp_keepalive_seconds: self.performance.tcp_keepalive_seconds,
            max_connections: self.performance.max_connections,
            require_auth: self.security.require_auth,
            rate_limit_per_minute: self.security.rate_limit_per_minute,
            allowed_ips: list_view(self.security.allowed_ips),
        }
    }
}

/// The configuration of a server that has been told nothing.
pub open spec fn default_view() -> ConfigView {
    ConfigView {
        http_port: 8080,
        tcp_port: 1984,
        num_shards: 16,
        cleanup_interval_seconds: 60,
        allowed_origin: None,
        username: "admin"@,
        password: "password"@,
        token_lifetime_seconds: 3600,
        default_ttl_seconds: 0,
        max_tags_per_entry: 100,
        max_key_length: 1024,
        max_value_length: 1048576,
        level: "info"@,
        format: "pretty"@,
        file: None,
        tcp_nodelay: true,
        tcp_keepalive_seconds: 7200,
        max_connections: 10000,
        require_auth: true,
        rate_limit_per_minute: 0,
        allowed_ips: None,
    }
}

impl Default for TagCacheConfig {
    fn default() -> (config: Self)
        ensures
            config@ == default_view(),
    {
        TagCacheConfig {
            server: ServerConfig {
                http_port: 8080,
                tcp_port: 1984,
                num_shards: 16,
                cleanup_interval_seconds: 60,
                allowed_origin: None,
            },
            authentication: AuthConfig {
                username: "admin".to_owned(),
                password: "password".to_owned(),
                token_lifetime_seconds: 3600,
            },
            cache: CacheConfig {
                default_ttl_seconds: 0,
                max_tags_per_entry: 100,
                max_key_length: 1024,
                max_value_length: 1048576,
            },
            logging: LoggingConfig {
                level: "info".to_owned(),
                format: "pretty".to_owned(),
                file: None,
            },
            performance: PerformanceConfig {
                tcp_nodelay: true,
                tcp_keepalive_seconds: 7200,
                max_connections: 10000,
            },
            security: SecurityConfig {
                require_auth: true,
                rate_limit_per_minute: 0,
                allowed_ips: None,
            },
        }
    }
}

/// What the environment of the process says of the configuration, each
/// value as the text that was found, if any was.
pub struct EnvOverrides {
    pub http_port: Option<String>,
    pub tcp_port: Option<String>,
    pub num_shards: Option<String>,
    pub username: Option<String>,
    pub password: Option<String>,
    pub allowed_origin: Option<String>,
}

/// A number of the environment in place of `current`: the number that the
/// text writes, where there is a text and it writes one that is at most
/// `max`.
pub open spec fn overridden(current: nat, text: Option<String>, max: nat) -> nat {
    match text {
        Some(t) => match number_of(t@, max) {
            Ok(n) => n,
            Err(_) => current,
        },
        None => current,
    }
}

/// A text of the environment in place of `current`.
pub open spec fn replaced(current: Seq<char>, text: Option<String>) -> Seq<char> {
    match text {
        Some(t) => t@,
        None => current,
    }
}

fn override_number(current: u64, text: &Option<String>, max: u64) -> (n: u64)
    requires
        current <= max,
    ensures
        n == overridden(current as nat, *text, max as nat),
        n <= max,
{
    match text {
        Some(t) => {
            let chars = chars_of(t.as_str());
            assert(chars@.subrange(0, chars.len() as int) =~= t@);
            match parse_number(&chars, 0, chars.len(), max) {
                Ok(n) => n,
                Err(_) => current,
            }
        },
        None => current,
    }
}

impl TagCacheConfig {
    /// Takes over what the environment says: ports and the number of
    /// shards where the text writes a number that fits, the user name, the
    /// password and the allowed origin as they are given.
    pub fn apply_env_overrides(&mut self, env: EnvOverrides)
        ensures
            final(self)@ == (ConfigView {
                http_port: overridden(
                    old(self)@.http_port as nat,
                    env.http_port,
                    u16::MAX as nat,
                ) as u16,
                tcp_port: overridden(old(self)@.tcp_port as nat, env.tcp_port, u16::MAX as nat) as u16,
                num_shards: overridden(
                    old(self)@.num_shards as nat,
                    env.num_shards,
                    usize::MAX as nat,
                ) as usize,
                username: replaced(old(self)@.username, env.username),
                password: replaced(old(self)@.password, env.password),
                allowed_origin: match env.allowed_origin {
                    Some(origin) => Some(origin@),
                    None => old(self)@.allowed_origin,
                },
                ..old(self)@
            }),
    {
        self.server.http_port = override_number(
            self.server.http_port as u64,
            &env.http_port,
            65535,
        ) as u16;
        self.server.tcp_port = override_number(
            self.server.tcp_port as u64,
            &env.tcp_port,
            65535,
        ) as u16;
        self.server.num_shards = override_number(
            self.server.num_shards as u64,
            &env.num_shards,
            usize::MAX as u64,
        ) as usize;
        match env.username {
            Some(u) => {
                self.authentication.username = u;
            },
            None => {},
        }
        match env.password {
            Some(p) => {
                self.authentication.password = p;
            },
            None => {},
        }
        match env.allowed_origin {
            Some(origin) => {
                self.server.allowed_origin = Some(origin);
            },
            None => {},
        }
    }

    /// Replaces the user name and the password, each where one is given.
    /// Writing the configuration back to its file is the caller's part.
    pub fn update_auth(&mut self, username: Option<String>, password: Option<String>)
        ensures
            final(self)@ == (ConfigView {
                username: match username {
                    Some(u) => u@,
                    None => old(self)@.username,
                },
                password: match password {
                    Some(p) => p@,
                    None => old(self)@.password,
                },
                ..old(self)@
            }),
    {
        match username {
            Some(u) => {
                self.authentication.username = u;
            },
            None => {},
        }
        match password {
            Some(p) => {
                self.authentication.password = p;
            },
            None => {},
        }
    }
}

/// A section of the configuration.
#[derive(Debug, Clone, Copy, PartialEq, Eq, Structural)]
pub enum Section {
    Server,
    Authentication,
    Cache,
    Logging,
    Performance,
    Security,
}

/// Why a value was not set.
#[derive(Debug)]
pub enum ConfigError {
    /// The name is not a section and a field with one dot between them.
    InvalidKeyFormat,
    UnknownSection(String),
    UnknownField(Section, String),
    InvalidNumber(NumberError),
    /// The value is neither `true` nor `false`.
    InvalidBool,
}

/// Why a value was not set, as mathematical values.
pub enum ConfigErrorView {
    InvalidKeyFormat,
    UnknownSection(Seq<char>),
    UnknownField(Section, Seq<char>),
    InvalidNumber(NumberError),
    InvalidBool,
}

impl View for ConfigError {
    type V = ConfigErrorView;

    open spec fn view(&self) -> ConfigErrorView {
        match *self {
            ConfigError::InvalidKeyFormat => ConfigErrorView::InvalidKeyFormat,
            ConfigError::UnknownSection(s) => ConfigErrorView::UnknownSection(s@),
            ConfigError::UnknownField(section, f) => ConfigErrorView::UnknownField(section, f@),
            ConfigError::InvalidNumber(e) => ConfigErrorView::InvalidNumber(e),
            ConfigError::InvalidBool => ConfigErrorView::InvalidBool,
        }
    }
}

/// One value of the configuration, by the field that it is for.
pub enum Setting {
    HttpPort(u16),
    TcpPort(u16),
    NumShards(usize),
    CleanupIntervalSeconds(u64),
    AllowedOrigin(Option<Seq<char>>),
    Username(Seq<char>),
    Password(Seq<char>),
    TokenLifetimeSeconds(u64),
    DefaultTtlSeconds(u64),
    MaxTagsPerEntry(usize),
    MaxKeyLength(usize),
    MaxValueLength(usize),
    Level(Seq<char>),
    Format(Seq<char>),
    File(Option<Seq<char>>),
    TcpNodelay(bool),
    TcpKeepaliveSeconds(u64),
    MaxConnections(usize),
    RequireAuth(bool),
    RateLimitPerMinute(u64),
    AllowedIps(Option<Seq<Seq<char>>>),
}

/// The configuration with one value set.
pub open spec fn with_setting(c: ConfigView, s: Setting) -> ConfigView {
    match s {
        Setting::HttpPort(v) => ConfigView { http_port: v, ..c },
        Setting::TcpPort(v) => ConfigView { tcp_port: v, ..c },
        Setting::NumShards(v) => ConfigView { num_shards: v, ..c },
        Setting::CleanupIntervalSeconds(v) => ConfigView { cleanup_interval_seconds: v, ..c },
        Setting::AllowedOrigin(v) => ConfigView { allowed_origin: v, ..c },
        Setting::Username(v) => ConfigView { username: v, ..c },
        Setting::Password(v) => ConfigView { password: v, ..c },
        Setting::TokenLifetimeSeconds(v) => ConfigView { token_lifetime_seconds: v, ..c },
        Setting::DefaultTtlSeconds(v) => ConfigView { default_ttl_seconds: v, ..c },
        Setting::MaxTagsPerEntry(v) => ConfigView { max_tags_per_entry: v, ..c },
        Setting::MaxKeyLength(v) => ConfigView { max_key_length: v, ..c },
        Setting::MaxValueLength(v) => ConfigView { max_value_length: v, ..c },
        Setting::Level(v) => ConfigView { level: v, ..c },
        Setting::Format(v) => ConfigView { format: v, ..c },
        Setting::File(v) => ConfigView { file: v, ..c },
        Setting::TcpNodelay(v) => ConfigView { tcp_nodelay: v, ..c },
        Setting::TcpKeepaliveSeconds(v) => ConfigView { tcp_keepalive_seconds: v, ..c },
        Setting::MaxConnections(v) => ConfigView { max_connections: v, ..c },
        Setting::RequireAuth(v) => ConfigView { require_auth: v, ..c },
        Setting::RateLimitPerMinute(v) => ConfigView { rate_limit_per_minute: v, ..c },
        Setting::AllowedIps(v) => ConfigView { allowed_ips: v, ..c },
    }
}

/// Whether a character is white space as Unicode defines it.
pub open spec fn is_space(c: char) -> bool {
    ||| ('\u{9}' <= c <= '\u{d}')
    ||| c == ' '
    ||| c == '\u{85}'
    ||| c == '\u{a0}'
    ||| c == '\u{1680}'
    ||| ('\u{2000}' <= c <= '\u{200a}')
    ||| c == '\u{2028}'
    ||| c == '\u{2029}'
    ||| c == '\u{202f}'
    ||| c == '\u{205f}'
    ||| c == '\u{3000}'
}

/// The text without the white space at its start.
pub open spec fn trim_start(s: Seq<char>) -> Seq<char>
    decreases s.len(),
{
    if s.len() > 0 && is_space(s[0]) {
        trim_start(s.drop_first())
    } else {
        s
    }
}

/// The text without the white space at its end.
pub open spec fn trim_end(s: Seq<char>) -> Seq<char>
    decreases s.len(),
{
    if s.len() > 0 && is_space(s.last()) {
        trim_end(s.drop_last())
    } else {
        s
    }
}

/// The text without the white space at its start and at its end.
pub open spec fn trimmed(s: Seq<char>) -> Seq<char> {
    trim_end(trim_start(s))
}

/// Each of the texts without the white space around it.
pub open spec fn each_trimmed(items: Seq<Seq<char>>) -> Seq<Seq<char>> {
    Seq::new(items.len(), |i: int| trimmed(items[i]))
}

/// A text as an optional value: an empty text stands for none.
pub open spec fn optional(value: Seq<char>) -> Option<Seq<char>> {
    if value.len() == 0 {
        None
    } else {
        Some(value)
    }
}

/// The number that a value writes, at most `max`.
pub open spec fn number_in(value: Seq<char>, max: nat) -> Result<nat, ConfigErrorView> {
    match number_of(value, max) {
        Ok(n) => Ok(n),
        Err(e) => Err(ConfigErrorView::InvalidNumber(e)),
    }
}

/// The truth value that a value writes.
pub open spec fn bool_in(value: Seq<char>) -> Result<bool, ConfigErrorView> {
    if value == "true"@ {
        Ok(true)
    } else if value == "false"@ {
        Ok(false)
    } else {
        Err(ConfigErrorView::InvalidBool)
    }
}

/// The value that a field of the section `server` and a text stand for.
pub open spec fn server_setting(field: Seq<char>, value: Seq<char>) -> Result<
    Setting,
    ConfigErrorView,
> {
    if field == "http_port"@ {
        match number_in(value, u16::MAX as nat) {
            Ok(n) => Ok(Setting::HttpPort(n as u16)),
            Err(e) => Err(e),
        }
    } else if field == "tcp_port"@ {
        match number_in(value, u16::MAX as nat) {
            Ok(n) => Ok(Setting::TcpPort(n as u16)),
            Err(e) => Err(e),
        }
    } else if field == "num_shards"@ {
        match number_in(value, usize::MAX as nat) {
            Ok(n) => Ok(Setting::NumShards(n as usize)),
            Err(e) => Err(e),
        }
    } else if field == "cleanup_interval_seconds"@ {
        match number_in(value, u64::MAX as nat) {
            Ok(n) => Ok(Setting::CleanupIntervalSeconds(n as u64)),
            Err(e) => Err(e),
        }
    } else if field == "allowed_origin"@ {
        Ok(Setting::AllowedOrigin(optional(value)))
    } else {
        Err(ConfigErrorView::UnknownField(Section::Server, field))
    }
}

/// The value that a field of the section `authentication` and a text stand
/// for.
pub open spec fn authentication_setting(field: Seq<char>, value: Seq<char>) -> Result<
    Setting,
    ConfigErrorView,
> {
    if field == "username"@ {
        Ok(Setting::Username(value))
    } else if field == "password"@ {
        Ok(Setting::Password(value))
    } else if field == "token_lifetime_seconds"@ {
        match number_in(value, u64::MAX as nat) {
            Ok(n) => Ok(Setting::TokenLifetimeSeconds(n as u64)),
            Err(e) => Err(e),
        }
    } else {
        Err(ConfigErrorView::UnknownField(Section::Authentication, field))
    }
}

/// The value that a field of the section `cache` and a text stand for.
pub open spec fn cache_setting(field: Seq<char>, value: Seq<char>) -> Result<
    Setting,
    ConfigErrorView,
> {
    if field == "default_ttl_seconds"@ {
        match number_in(value, u64::MAX as nat) {
            Ok(n) => Ok(Setting::DefaultTtlSeconds(n as u64)),
            Err(e) => Err(e),
        }
    } else if field == "max_tags_per_entry"@ {
        match number_in(value, usize::MAX as nat) {
            Ok(n) => Ok(Setting::MaxTagsPerEntry(n as usize)),
            Err(e) => Err(e),
        }
    } else if field == "max_key_length"@ {
        match number_in(value, usize::MAX as nat) {
            Ok(n) => Ok(Setting::MaxKeyLength(n as usize)),
            Err(e) => Err(e),
        }
    } else if field == "max_value_length"@ {
        match number_in(value, usize::MAX as nat) {
            Ok(n) => Ok(Setting::MaxValueLength(n as usize)),
            Err(e) => Err(e),
        }
    } else {
        Err(ConfigErrorView::UnknownField(Section::Cache, field))
    }
}

/// The value that a field of the section `logging` and a text stand for.
pub open spec fn logging_setting(field: Seq<char>, value: Seq<char>) -> Result<
    Setting,
    ConfigErrorView,
> {
    if field == "level"@ {
        Ok(Setting::Level(value))
    } else if field == "format"@ {
        Ok(Setting::Format(value))
    } else if field == "file"@ {
        Ok(Setting::File(optional(value)))
    } else {
        Err(ConfigErrorView::UnknownField(Section::Logging, field))
    }
}

/// The value that a field of the section `performance` and a text stand
/// for.
pub open spec fn performance_setting(field: Seq<char>, value: Seq<char>) -> Result<
    Setting,
    ConfigErrorView,
> {
    if field == "tcp_nodelay"@ {
        match bool_in(value) {
            Ok(b) => Ok(Setting::TcpNodelay(b)),
            Err(e) => Err(e),
        }
    } else if field == "tcp_keepalive_seconds"@ {
        match number_in(value, u64::MAX as nat) {
            Ok(n) => Ok(Setting::TcpKeepaliveSeconds(n as u64)),
            Err(e) => Err(e),
        }
    } else if field == "max_connections"@ {
        match number_in(value, usize::MAX as nat) {
            Ok(n) => Ok(Setting::MaxConnections(n as usize)),
            Err(e) => Err(e),
        }
    } else {
        Err(ConfigErrorView::UnknownField(Section::Performance, field))
    }
}

/// The value that a field of the section `security` and a text stand for.
pub open spec fn security_setting(field: Seq<char>, value: Seq<char>) -> Result<
    Setting,
    ConfigErrorView,
> {
    if field == "require_auth"@ {
        match bool_in(value) {
            Ok(b) => Ok(Setting::RequireAuth(b)),
            Err(e) => Err(e),
        }
    } else if field == "rate_limit_per_minute"@ {
        match number_in(value, u64::MAX as nat) {
            Ok(n) => Ok(Setting::RateLimitPerMinute(n as u64)),
            Err(e) => Err(e),
        }
    } else if field == "allowed_ips"@ {
        if value.len() == 0 {
            Ok(Setting::AllowedIps(None))
        } else {
            Ok(Setting::AllowedIps(Some(each_trimmed(pieces(value, ',', None)))))
        }
    } else {
        Err(ConfigErrorView::UnknownField(Section::Security, field))
    }
}

/// The value that a dotted name and a text stand for. The name is a section
/// and a field with one dot between them; numbers are written in decimal,
/// truth values as `true` and `false`; an empty text stands for no value
/// where the field may have none; a list is written with commas, and the
/// white space around each of its items does not count.
pub open spec fn setting_of(key: Seq<char>, value: Seq<char>) -> Result<Setting, ConfigErrorView> {
    let parts = pieces(key, '.', None);
    if parts.len() != 2 {
        Err(ConfigErrorView::InvalidKeyFormat)
    } else if parts[0] == "server"@ {
        server_setting(parts[1], value)
    } else if parts[0] == "authentication"@ {
        authentication_setting(parts[1], value)
    } else if parts[0] == "cache"@ {
        cache_setting(parts[1], value)
    } else if parts[0] == "logging"@ {
        logging_setting(parts[1], value)
    } else if parts[0] == "performance"@ {
        performance_setting(parts[1], value)
    } else if parts[0] == "security"@ {
        security_setting(parts[1], value)
    } else {
        Err(ConfigErrorView::UnknownSection(parts[0]))
    }
}

fn same_text(a: &str, b: &str) -> (same: bool)
    ensures
        same == (a@ == b@),
{
    a.to_owned() == b.to_owned()
}

fn read_number(value: &str, max: u64) -> (n: Result<u64, ConfigError>)
    ensures
        n matches Ok(v) ==> number_in(value@, max as nat) == Ok::<nat, ConfigErrorView>(v as nat),
        n matches Err(e) ==> number_in(value@, max as nat) == Err::<nat, ConfigErrorView>(e@),
{
    let chars = chars_of(value);
    assert(chars@.subrange(0, chars.len() as int) =~= value@);
    match parse_number(&chars, 0, chars.len(), max) {
        Ok(v) => Ok(v),
        Err(e) => Err(ConfigError::InvalidNumber(e)),
    }
}

fn read_bool(value: &str) -> (b: Result<bool, ConfigError>)
    ensures
        b matches Ok(v) ==> bool_in(value@) == Ok::<bool, ConfigErrorView>(v),
        b matches Err(e) ==> bool_in(value@) == Err::<bool, ConfigErrorView>(e@),
{
    proof {
        reveal_strlit("true");
        reveal_strlit("false");
    }
    if same_text(value, "true") {
        Ok(true)
    } else if same_text(value, "false") {
        Ok(false)
    } else {
        Err(ConfigError::InvalidBool)
    }
}

fn read_optional(value: &str) -> (text: Option<String>)
    ensures
        text_view(text) == optional(value@),
{
    if value.unicode_len() == 0 {
        None
    } else {
        Some(value.to_owned())
    }
}

fn space(c: char) -> (yes: bool)
    ensures
        yes == is_space(c),
{
    ('\u{9}' <= c && c <= '\u{d}') || c == ' ' || c == '\u{85}' || c == '\u{a0}' || c
        == '\u{1680}' || ('\u{2000}' <= c && c <= '\u{200a}') || c == '\u{2028}' || c
        == '\u{2029}' || c == '\u{202f}' || c == '\u{205f}' || c == '\u{3000}'
}

/// Where the text of a range lies once the white space around it is left
/// out.
fn trim_range(chars: &Vec<char>, start: usize, end: usize) -> (range: (usize, usize))
    requires
        start <= end <= chars.len(),
    ensures
        start <= range.0 <= range.1 <= end,
        chars@.subrange(range.0 as int, range.1 as int) == trimmed(
            chars@.subrange(start as int, end as int),
        ),
{
    let ghost text = chars@.subrange(start as int, end as int);
    let mut from: usize = start;
    while from < end && space(chars[from])
        invariant
            start <= from <= end <= chars.len(),
            trim_start(chars@.subrange(from as int, end as int)) == trim_start(text),
        decreases end - from,
    {
        proof {
            let rest = chars@.subrange(from as int, end as int);
            assert(rest[0] == chars@[from as int]);
            assert(rest.drop_first() =~= chars@.subrange(from + 1, end as int));
        }
        from = from + 1;
    }
    proof {
        let rest = chars@.subrange(from as int, end as int);
        if from < end {
            assert(rest[0] == chars@[from as int]);
        }
        assert(trim_start(text) == rest);
    }
    let mut to: usize = end;
    while to > from && space(chars[to - 1])
        invariant
            from <= to <= end <= chars.len(),
            trim_end(chars@.subrange(from as int, to as int)) == trimmed(text),
        decreases to,
    {
        proof {
            let rest = chars@.subrange(from as int, to as int);
            assert(rest.last() == chars@[to - 1]);
            assert(rest.drop_last() =~= chars@.subrange(from as int, to - 1));
        }
        to = to - 1;
    }
    proof {
        let rest = chars@.subrange(from as int, to as int);
        if to > from {
            assert(rest.last() == chars@[to - 1]);
        }
    }
    (from, to)
}

fn read_list(value: &str) -> (items: Vec<String>)
    ensures
        string_views(items@) == each_trimmed(pieces(value@, ',', None)),
{
    let chars = chars_of(value);
    assert(chars@.subrange(0, chars.len() as int) =~= value@);
    let ranges = split_ranges(&chars, 0, chars.len(), ',', None);
    let ghost parts = cut(chars@, ranges@);
    let mut items: Vec<String> = Vec::new();
    let mut i: usize = 0;
    while i < ranges.len()
        invariant
            0 <= i <= ranges.len(),
            chars@ == value@,
            crate::text::within(ranges@, chars.len() as int),
            parts == cut(chars@, ranges@),
            string_views(items@) == each_trimmed(parts).take(i as int),
        decreases ranges.len() - i,
    {
        let range = ranges[i];
        let inner = trim_range(&chars, range.0, range.1);
        let ghost before = string_views(items@);
        items.push(value.substring_char(inner.0, inner.1).to_owned());
        proof {
            assert(parts[i as int] == chars@.subrange(range.0 as int, range.1 as int));
            assert(string_views(items@) =~= before.push(trimmed(parts[i as int])));
            assert(each_trimmed(parts).take(i + 1) =~= before.push(trimmed(parts[i as int])));
        }
        i = i + 1;
    }
    proof {
        assert(each_trimmed(parts).take(parts.len() as int) =~= each_trimmed(parts));
    }
    items
}

/// Sets the value that `key` names to what `value` writes. Where the name
/// is not known or the value does not fit the field, the configuration
/// stays as it is.
pub fn set_config_value(config: &mut TagCacheConfig, key: &str, value: &str) -> (done: Result<
    (),
    ConfigError,
>)
    ensures
        match setting_of(key@, value@) {
            Ok(s) => done is Ok && final(config)@ == with_setting(old(config)@, s),
            Err(e) => done matches Err(err) && err@ == e && final(config)@ == old(config)@,
        },
{
    let chars = chars_of(key);
    assert(chars@.subrange(0, chars.len() as int) =~= key@);
    let ranges = split_ranges(&chars, 0, chars.len(), '.', None);
    let ghost parts = cut(chars@, ranges@);
    if ranges.len() != 2 {
        return Err(ConfigError::InvalidKeyFormat);
    }
    assert(parts[0] == chars@.subrange(ranges[0].0 as int, ranges[0].1 as int));
    assert(parts[1] == chars@.subrange(ranges[1].0 as int, ranges[1].1 as int));
    let section: &str = key.substring_char(ranges[0].0, ranges[0].1);
    let field: &str = key.substring_char(ranges[1].0, ranges[1].1);
    if same_text(section, "server") {
        if same_text(field, "http_port") {
            match read_number(value, 65535) {
                Ok(n) => {
                    config.server.http_port = n as u16;
                },
                Err(e) => {
                    return Err(e);
                },
            }
        } else if same_text(field, "tcp_port") {
            match read_number(value, 65535) {
                Ok(n) => {
                    config.server.tcp_port = n as u16;
                },
                Err(e) => {
                    return Err(e);
                },
            }
        } else if same_text(field, "num_shards") {
            match read_number(value, usize::MAX as u64) {
                Ok(n) => {
                    config.server.num_shards = n as usize;
                },
                Err(e) => {
                    return Err(e);
                },
            }
        } else if same_text(field, "cleanup_interval_seconds") {
            match read_number(value, u64::MAX) {
                Ok(n) => {
                    config.server.cleanup_interval_seconds = n;
                },
                Err(e) => {
                    return Err(e);
                },
            }
        } else if same_text(field, "allowed_origin") {
            config.server.allowed_origin = read_optional(value);
        } else {
            return Err(ConfigError::UnknownField(Section::Server, field.to_owned()));
        }
    } else if same_text(section, "authentication") {
        if same_text(field, "username") {
            config.authentication.username = value.to_owned();
        } else if same_text(field, "password") {
            config.authentication.password = value.to_owned();
        } else if same_text(field, "token_lifetime_seconds") {
            match read_number(value, u64::MAX) {
                Ok(n) => {
                    config.authentication.token_lifetime_seconds = n;
                },
                Err(e) => {
                    return Err(e);
                },
            }
        } else {
            return Err(ConfigError::UnknownField(Section::Authentication, field.to_owned()));
        }
    } else if same_text(section, "cache") {
        if same_text(field, "default_ttl_seconds") {
            match read_number(value, u64::MAX) {
                Ok(n) => {
                    config.cache.default_ttl_seconds = n;
                },
                Err(e) => {
                    return Err(e);
                },
            }
        } else if same_text(field, "max_tags_per_entry") {
            match read_number(value, usize::MAX as u64) {
                Ok(n) => {
                    config.cache.max_tags_per_entry = n as usize;
                },
                Err(e) => {
                    return Err(e);
                },
            }
        } else if same_text(field, "max_key_length") {
            match read_number(value, usize::MAX as u64) {
                Ok(n) => {
                    config.cache.max_key_length = n as usize;
                },
                Err(e) => {
                    return Err(e);
                },
            }
        } else if same_text(field, "max_value_length") {
            match read_number(value, usize::MAX as u64) {
                Ok(n) => {
                    config.cache.max_value_length = n as usize;
                },
                Err(e) => {
                    return Err(e);
                },
            }
        } else {
            return Err(ConfigError::UnknownField(Section::Cache, field.to_owned()));
        }
    } else if same_text(section, "logging") {
        if same_text(field, "level") {
            config.logging.level = value.to_owned();
        } else if same_text(field, "format") {
            config.logging.format = value.to_owned();
        } else if same_text(field, "file") {
            config.logging.file = read_optional(value);
        } else {
            return Err(ConfigError::UnknownField(Section::Logging, field.to_owned()));
        }
    } else if same_text(section, "performance") {
        if same_text(field, "tcp_nodelay") {
            match read_bool(value) {
                Ok(b) => {
                    config.performance.tcp_nodelay = b;
                },
                Err(e) => {
                    return Err(e);
                },
            }
        } else if same_text(field, "tcp_keepalive_seconds") {
            match read_number(value, u64::MAX) {
                Ok(n) => {
                    config.performance.tcp_keepalive_seconds = n;
                },
                Err(e) => {
                    return Err(e);
                },
            }
        } else if same_text(field, "max_connections") {
            match read_number(value, usize::MAX as u64) {
                Ok(n) => {
                    config.performance.max_connections = n as usize;
                },
                Err(e) => {
                    return Err(e);
                },
            }
        } else {
            return Err(ConfigError::UnknownField(Section::Performance, field.to_owned()));
        }
    } else if same_text(section, "security") {
        if same_text(field, "require_auth") {
            match read_bool(value) {
                Ok(b) => {
                    config.security.require_auth = b;
                },
                Err(e) => {
                    return Err(e);
                },
            }
        } else if same_text(field, "rate_limit_per_minute") {
            match read_number(value, u64::MAX) {
                Ok(n) => {
                    config.security.rate_limit_per_minute = n;
                },
                Err(e) => {
                    return Err(e);
                },
            }
        } else if same_text(field, "allowed_ips") {
            if value.unicode_len() == 0 {
                config.security.allowed_ips = None;
            } else {
                config.security.allowed_ips = Some(read_list(value));
            }
        } else {
            return Err(ConfigError::UnknownField(Section::Security, field.to_owned()));
        }
    } else {
        return Err(ConfigError::UnknownSection(section.to_owned()));
    }
    Ok(())
}

} // verus!

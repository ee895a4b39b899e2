//! The configuration: which keys, which upstream, and what counts as an exhausted key.

use crate::environment::Environment;
use crate::expand::{env_names, expand_env, ExpandError};
use crate::expand::{expanded, law_expansion_rests_on_its_names, names, ExpandFault};
use crate::text::{ascii_lower, decimal, is_white_space, strip_end, strip_start, texts, trimmed};
use crate::text::without_end_slashes;
use crate::text::{same_text, to_ascii_lower, to_decimal, trim, trim_end_slashes};
use vstd::prelude::*;

verus! {

/// The header that carries the key to the upstream.
#[derive(Debug, Clone, Copy, PartialEq, Eq, Structural)]
pub enum AuthHeader {
    /// `x-api-key: <KEY>`
    XApiKey,
    /// `authorization: Bearer <KEY>`
    Authorization,
}

impl AuthHeader {
    /// The name of the header.
    pub open spec fn name(self) -> Seq<char> {
        match self {
            AuthHeader::XApiKey => "x-api-key"@,
            AuthHeader::Authorization => "authorization"@,
        }
    }

    /// The value of the header for a key.
    pub open spec fn value(self, key: Seq<char>) -> Seq<char> {
        match self {
            AuthHeader::XApiKey => key,
            AuthHeader::Authorization => "Bearer "@ + key,
        }
    }

    /// The header that a setting names, in any mix of upper and lower case.
    pub open spec fn named(setting: Seq<char>) -> Option<AuthHeader> {
        if ascii_lower(setting) == AuthHeader::XApiKey.name() {
            Some(AuthHeader::XApiKey)
        } else if ascii_lower(setting) == AuthHeader::Authorization.name() {
            Some(AuthHeader::Authorization)
        } else {
            None
        }
    }

    /// The name of the header, in lower case.
    pub fn header_name(self) -> (name: &'static str)
        ensures
            name@ == self.name(),
    {
        match self {
            AuthHeader::XApiKey => "x-api-key",
            AuthHeader::Authorization => "authorization",
        }
    }

    /// The value of the header for the given key.
    pub fn header_value(self, key: &str) -> (value: String)
        ensures
            value@ == self.value(key@),
    {
        match self {
            AuthHeader::XApiKey => key.to_string(),
            AuthHeader::Authorization => "Bearer ".to_string().concat(key),
        }
    }
}

/// The configuration as it is written down, before `${NAME}` is replaced.
#[derive(Debug)]
pub struct RawConfig {
    pub listen: String,
    pub upstream: String,
    pub auth_header: String,
    pub keys: Vec<String>,
    pub exhaustion_markers: Vec<String>,
    pub failover_statuses: Vec<u16>,
}

/// The model of a [`RawConfig`].
pub struct RawSettings {
    pub listen: Seq<char>,
    pub upstream: Seq<char>,
    pub auth_header: Seq<char>,
    pub keys: Seq<Seq<char>>,
    pub exhaustion_markers: Seq<Seq<char>>,
    pub failover_statuses: Seq<u16>,
}

impl View for RawConfig {
    type V = RawSettings;

    open spec fn view(&self) -> RawSettings {
        RawSettings {
            listen: self.listen@,
            upstream: self.upstream@,
            auth_header: self.auth_header@,
            keys: texts(self.keys@),
            exhaustion_markers: texts(self.exhaustion_markers@),
            failover_statuses: self.failover_statuses@,
        }
    }
}

/// A configuration that is ready for use.
#[derive(Debug, Clone)]
pub struct Config {
    pub listen: String,
    /// The upstream without slashes at its end.
    pub upstream: String,
    pub auth_header: AuthHeader,
    pub keys: Vec<String>,
    pub exhaustion_markers: Vec<String>,
    pub failover_statuses: Vec<u16>,
}

/// The model of a [`Config`].
pub struct Settings {
    pub listen: Seq<char>,
    pub upstream: Seq<char>,
    pub auth_header: AuthHeader,
    pub keys: Seq<Seq<char>>,
    pub exhaustion_markers: Seq<Seq<char>>,
    pub failover_statuses: Seq<u16>,
}

impl View for Config {
    type V = Settings;

    open spec fn view(&self) -> Settings {
        Settings {
            listen: self.listen@,
            upstream: self.upstream@,
            auth_header: self.auth_header,
            keys: texts(self.keys@),
            exhaustion_markers: texts(self.exhaustion_markers@),
            failover_statuses: self.failover_statuses@,
        }
    }
}

/// Why a configuration is refused.
#[derive(Debug)]
pub enum ConfigError {
    /// `auth_header` names no known header; the setting in lower case.
    UnknownAuthHeader { given: String },
    /// The key at this position could not be expanded.
    Key { index: usize, cause: ExpandError },
    /// The key at this position is empty or white space once it is expanded.
    EmptyKey { index: usize },
    /// There is no key.
    NoKeys,
    /// `upstream` is empty, or slashes only.
    NoUpstream,
}

/// The model of [`ConfigError`].
pub enum ConfigFault {
    UnknownAuthHeader(Seq<char>),
    Key(int, ExpandFault),
    EmptyKey(int),
    NoKeys,
    NoUpstream,
}

impl View for ConfigError {
    type V = ConfigFault;

    open spec fn view(&self) -> ConfigFault {
        match self {
            ConfigError::UnknownAuthHeader { given } => ConfigFault::UnknownAuthHeader(given@),
            ConfigError::Key { index, cause } => ConfigFault::Key(*index as int, cause@),
            ConfigError::EmptyKey { index } => ConfigFault::EmptyKey(*index as int),
            ConfigError::NoKeys => ConfigFault::NoKeys,
            ConfigError::NoUpstream => ConfigFault::NoUpstream,
        }
    }
}

/// The key that a setting stands for.
pub open spec fn key_of(
    setting: Seq<char>,
    index: int,
    env: Map<Seq<char>, Seq<char>>,
) -> Result<Seq<char>, ConfigFault> {
    match expanded(setting, env) {
        Err(fault) => Err(ConfigFault::Key(index, fault)),
        Ok(text) => if trimmed(text).len() == 0 {
            Err(ConfigFault::EmptyKey(index))
        } else {
            Ok(trimmed(text))
        },
    }
}

/// The keys that the first `count` settings stand for, or what is wrong with the first bad one.
pub open spec fn keys_of(
    settings: Seq<Seq<char>>,
    count: int,
    env: Map<Seq<char>, Seq<char>>,
) -> Result<Seq<Seq<char>>, ConfigFault>
    decreases count,
{
    if count <= 0 {
        Ok(Seq::empty())
    } else {
        match keys_of(settings, count - 1, env) {
            Err(fault) => Err(fault),
            Ok(keys) => match key_of(settings[count - 1], count - 1, env) {
                Err(fault) => Err(fault),
                Ok(key) => Ok(keys.push(key)),
            },
        }
    }
}

/// What a written configuration means in an environment, or the first thing that is wrong with
/// it: the auth header, then the keys in their order, then the upstream.
pub open spec fn meaning(
    raw: RawSettings,
    env: Map<Seq<char>, Seq<char>>,
) -> Result<Settings, ConfigFault> {
    match AuthHeader::named(raw.auth_header) {
        None => Err(ConfigFault::UnknownAuthHeader(ascii_lower(raw.auth_header))),
        Some(auth_header) => match keys_of(raw.keys, raw.keys.len() as int, env) {
            Err(fault) => Err(fault),
            Ok(keys) => if keys.len() == 0 {
                Err(ConfigFault::NoKeys)
            } else if without_end_slashes(raw.upstream).len() == 0 {
                Err(ConfigFault::NoUpstream)
            } else {
                Ok(
                    Settings {
                        listen: raw.listen,
                        upstream: without_end_slashes(raw.upstream),
                        auth_header,
                        keys,
                        exhaustion_markers: raw.exhaustion_markers,
                        failover_statuses: raw.failover_statuses,
                    },
                )
            },
        },
    }
}

/// The model of what [`Config::from_raw`] returns.
pub open spec fn verdict(result: Result<Config, ConfigError>) -> Result<Settings, ConfigFault> {
    match result {
        Ok(config) => Ok(config@),
        Err(error) => Err(error@),
    }
}

/// The auth header of a configuration that names none.
pub fn default_auth_header() -> (setting: String)
    ensures
        setting@ == "x-api-key"@,
{
    "x-api-key".to_string()
}

/// The exhaustion markers of a configuration that gives none.
pub fn default_markers() -> (markers: Vec<String>)
    ensures
        texts(markers@) == seq!["Usage limit reached"@],
{
    let markers = vec!["Usage limit reached".to_string()];
    assert(texts(markers@) =~= seq!["Usage limit reached"@]);
    markers
}

/// The statuses that move on to the next key, in a configuration that gives none: an invalid
/// key, a payment or a limit, no access, too many requests.
pub fn default_failover_statuses() -> (statuses: Vec<u16>)
    ensures
        statuses@ == seq![401u16, 402u16, 403u16, 429u16],
{
    vec![401, 402, 403, 429]
}

impl RawConfig {
    /// The names of the environment variables that the keys refer to.
    pub fn env_names(&self) -> (found: Vec<String>)
        ensures
            texts(found@) == names_of(self@.keys, self@.keys.len() as int),
    {
        let mut found: Vec<String> = Vec::new();
        assert(texts(found@) =~= Seq::empty());
        for i in 0..self.keys.len()
            invariant
                texts(found@) == names_of(self@.keys, i as int),
        {
            let mut more = env_names(self.keys[i].as_str());
            let ghost before = found@;
            let ghost added = more@;
            found.append(&mut more);
            assert(texts(found@) =~= texts(before) + texts(added));
        }
        found
    }
}

/// The names of the variables that the first `count` settings refer to, in their order.
pub open spec fn names_of(settings: Seq<Seq<char>>, count: int) -> Seq<Seq<char>>
    decreases count,
{
    if count <= 0 {
        Seq::empty()
    } else {
        names_of(settings, count - 1) + names(settings[count - 1])
    }
}

impl Config {
    /// Check a written configuration and make it ready for use: `${NAME}` in the keys is replaced
    /// from `env`, white space round the keys and slashes behind the upstream are dropped.
    pub fn from_raw(raw: RawConfig, env: &Environment) -> (result: Result<Config, ConfigError>)
        ensures
            verdict(result) == meaning(raw@, env@),
            result matches Ok(config) ==> {
                &&& meaning(raw@, env@) == Ok::<Settings, ConfigFault>(config@)
                &&& config.listen@ == raw.listen@
                &&& config.failover_statuses@ == raw.failover_statuses@
                &&& config.exhaustion_markers@ == raw.exhaustion_markers@
                &&& config.keys@.len() == raw.keys@.len() > 0
                &&& config.upstream@.len() > 0
            },
            result matches Err(error) ==> meaning(raw@, env@) == Err::<Settings, ConfigFault>(
                error@,
            ),
    {
        let setting = to_ascii_lower(raw.auth_header.as_str());
        let auth_header = if same_text(setting.as_str(), "x-api-key") {
            AuthHeader::XApiKey
        } else if same_text(setting.as_str(), "authorization") {
            AuthHeader::Authorization
        } else {
            return Err(ConfigError::UnknownAuthHeader { given: setting });
        };
        let mut keys: Vec<String> = Vec::new();
        assert(texts(keys@) =~= Seq::empty());
        let count = raw.keys.len();
        for i in 0..count
            invariant
                count == raw.keys.len(),
                AuthHeader::named(raw@.auth_header) == Some(auth_header),
                keys_of(raw@.keys, i as int, env@) == Ok::<Seq<Seq<char>>, ConfigFault>(
                    texts(keys@),
                ),
        {
            match expand_env(raw.keys[i].as_str(), env) {
                Err(cause) => {
                    proof {
                        lemma_first_fault(raw@.keys, i + 1, count as int, env@);
                    }
                    return Err(ConfigError::Key { index: i, cause });
                },
                Ok(text) => {
                    let key = trim(text.as_str());
                    if key.as_str().is_empty() {
                        proof {
                            lemma_first_fault(raw@.keys, i + 1, count as int, env@);
                        }
                        return Err(ConfigError::EmptyKey { index: i });
                    }
                    let ghost before = keys@;
                    keys.push(key);
                    assert(texts(keys@) =~= texts(before).push(key@));
                },
            }
        }
        if keys.len() == 0 {
            return Err(ConfigError::NoKeys);
        }
        proof {
            lemma_keys_clean(raw@.keys, count as int, env@);
        }
        let upstream = trim_end_slashes(raw.upstream.as_str());
        if upstream.as_str().is_empty() {
            return Err(ConfigError::NoUpstream);
        }
        Ok(
            Config {
                listen: raw.listen,
                upstream,
                auth_header,
                keys,
                exhaustion_markers: raw.exhaustion_markers,
                failover_statuses: raw.failover_statuses,
            },
        )
    }
}

/// A fault among the first settings is the fault of all of them.
pub(crate) proof fn lemma_first_fault(
    settings: Seq<Seq<char>>,
    count: int,
    more: int,
    env: Map<Seq<char>, Seq<char>>,
)
    requires
        0 <= count <= more,
        keys_of(settings, count, env) is Err,
    ensures
        keys_of(settings, more, env) == keys_of(settings, count, env),
    decreases more - count,
{
    if count < more {
        lemma_first_fault(settings, count, more - 1, env);
    }
}

impl ConfigError {
    /// The error in words; the cause of a [`ConfigError::Key`] has words of its own.
    pub fn message(&self) -> (text: String)
        ensures
            text@ == match self@ {
                ConfigFault::UnknownAuthHeader(given) =>
                "auth_header должен быть 'x-api-key' или 'authorization', получено '"@ + given
                    + "'"@,
                ConfigFault::Key(index, _) => "ключ #"@ + decimal(index as nat)
                    + " не удалось раскрыть"@,
                ConfigFault::EmptyKey(index) => "ключ #"@ + decimal(index as nat)
                    + " пустой после раскрытия ${ENV}"@,
                ConfigFault::NoKeys => "не задан ни один ключ в `keys`"@,
                ConfigFault::NoUpstream => "`upstream` не задан"@,
            },
    {
        match self {
            ConfigError::UnknownAuthHeader { given } =>
            "auth_header должен быть 'x-api-key' или 'authorization', получено '".to_string().concat(
                given.as_str(),
            ).concat("'"),
            ConfigError::Key { index, .. } => "ключ #".to_string().concat(
                to_decimal(*index).as_str(),
            ).concat(" не удалось раскрыть"),
            ConfigError::EmptyKey { index } => "ключ #".to_string().concat(
                to_decimal(*index).as_str(),
            ).concat(" пустой после раскрытия ${ENV}"),
            ConfigError::NoKeys => "не задан ни один ключ в `keys`".to_string(),
            ConfigError::NoUpstream => "`upstream` не задан".to_string(),
        }
    }
}

/// The case in which the auth header is written does not matter.
pub proof fn law_auth_header_ignores_case(setting: Seq<char>, other: Seq<char>)
    requires
        ascii_lower(setting) == ascii_lower(other),
    ensures
        AuthHeader::named(setting) == AuthHeader::named(other),
{
}

/// A key that can be sent: not empty, and without white space at either end.
pub open spec fn is_clean_key(key: Seq<char>) -> bool {
    &&& key.len() > 0
    &&& !is_white_space(key.first())
    &&& !is_white_space(key.last())
}

/// A configuration that was accepted has at least one key, as many as were written down, each of
/// them clean; and its upstream is not empty and does not end in a slash.
pub proof fn law_accepted_configuration_is_usable(
    raw: RawSettings,
    env: Map<Seq<char>, Seq<char>>,
)
    requires
        meaning(raw, env) is Ok,
    ensures
        ({
            let config = meaning(raw, env)->Ok_0;
            &&& config.keys.len() == raw.keys.len() > 0
            &&& forall|i: int| 0 <= i < config.keys.len() ==> is_clean_key(#[trigger] config.keys[i])
            &&& config.upstream.len() > 0
            &&& config.upstream.last() != '/'
        }),
{
    lemma_keys_clean(raw.keys, raw.keys.len() as int, env);
    lemma_strip_end(raw.upstream, |c: char| c == '/');
}

pub(crate) proof fn lemma_keys_clean(
    settings: Seq<Seq<char>>,
    count: int,
    env: Map<Seq<char>, Seq<char>>,
)
    requires
        0 <= count,
        keys_of(settings, count, env) is Ok,
    ensures
        ({
            let keys = keys_of(settings, count, env)->Ok_0;
            &&& keys.len() == count
            &&& forall|i: int| 0 <= i < count ==> is_clean_key(#[trigger] keys[i])
            &&& forall|i: int|
                0 <= i < count ==> key_of(settings[i], i, env) == Ok::<Seq<char>, ConfigFault>(
                    #[trigger] keys[i],
                )
        }),
    decreases count,
{
    if count > 0 {
        lemma_keys_clean(settings, count - 1, env);
        let text = expanded(settings[count - 1], env)->Ok_0;
        let drop = |c: char| is_white_space(c);
        lemma_strip_end(strip_start(text, drop), drop);
        lemma_strip_start(text, drop);
    }
}

proof fn lemma_strip_start(text: Seq<char>, drop: spec_fn(char) -> bool)
    ensures
        strip_start(text, drop).len() > 0 ==> !drop(strip_start(text, drop).first()),
    decreases text.len(),
{
    if text.len() > 0 && drop(text.first()) {
        lemma_strip_start(text.drop_first(), drop);
    }
}

proof fn lemma_strip_end(text: Seq<char>, drop: spec_fn(char) -> bool)
    ensures
        strip_end(text, drop).len() > 0 ==> {
            &&& !drop(strip_end(text, drop).last())
            &&& strip_end(text, drop).first() == text.first()
        },
    decreases text.len(),
{
    if text.len() > 0 && drop(text.last()) {
        lemma_strip_end(text.drop_last(), drop);
    }
}

/// Each key of an accepted configuration is what its setting expands to, without the white space
/// round it; and the ring keeps the order in which the keys were written down.
pub proof fn law_keys_keep_their_order(
    raw: RawSettings,
    env: Map<Seq<char>, Seq<char>>,
    index: int,
)
    requires
        meaning(raw, env) is Ok,
        0 <= index < raw.keys.len(),
    ensures
        expanded(raw.keys[index], env) is Ok,
        meaning(raw, env)->Ok_0.keys[index] == trimmed(expanded(raw.keys[index], env)->Ok_0),
{
    lemma_keys_clean(raw.keys, raw.keys.len() as int, env);
    let keys = meaning(raw, env)->Ok_0.keys;
    assert(key_of(raw.keys[index], index, env) == Ok::<Seq<char>, ConfigFault>(keys[index]));
}

/// What a written configuration means rests on the variables that its keys refer to and on no
/// others.
pub proof fn law_meaning_rests_on_its_names(
    raw: RawSettings,
    env: Map<Seq<char>, Seq<char>>,
    other: Map<Seq<char>, Seq<char>>,
)
    requires
        forall|name: Seq<char>|
            names_of(raw.keys, raw.keys.len() as int).contains(name) ==> #[trigger] env.get(name)
                == other.get(name),
    ensures
        meaning(raw, env) == meaning(raw, other),
{
    lemma_keys_rest_on_names(raw.keys, raw.keys.len() as int, env, other);
}

proof fn lemma_keys_rest_on_names(
    settings: Seq<Seq<char>>,
    count: int,
    env: Map<Seq<char>, Seq<char>>,
    other: Map<Seq<char>, Seq<char>>,
)
    requires
        0 <= count,
        forall|name: Seq<char>|
            names_of(settings, count).contains(name) ==> #[trigger] env.get(name) == other.get(
                name,
            ),
    ensures
        keys_of(settings, count, env) == keys_of(settings, count, other),
    decreases count,
{
    if count > 0 {
        let all = names_of(settings, count);
        let earlier = names_of(settings, count - 1);
        let own = names(settings[count - 1]);
        assert forall|name: Seq<char>| earlier.contains(name) implies #[trigger] env.get(name)
            == other.get(name) by {
            let i = choose|i: int| 0 <= i < earlier.len() && earlier[i] == name;
            assert(all[i] == name);
        }
        lemma_keys_rest_on_names(settings, count - 1, env, other);
        assert forall|i: int| 0 <= i < own.len() implies env.get(#[trigger] own[i]) == other.get(
            own[i],
        ) by {
            assert(all[earlier.len() + i] == own[i]);
        }
        law_expansion_rests_on_its_names(settings[count - 1], env, other);
    }
}

} // verus!

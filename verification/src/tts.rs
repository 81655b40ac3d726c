//! Text-to-speech settings: defaults, how command-line values, the saved
//! config and the environment combine, the texts of a request, and how a
//! streamed response becomes audio.
use base64::Engine;
use vstd::prelude::*;

use crate::text::{
    keep_nonblank, lines, split_lines,
    chars_of, digits_value, first_index_of, index_of_char, lemma_first_index_of, parse_unsigned,
    parse_unsigned_chars, push_char, push_decimal, push_str, split_words, str_eq, string_of,
    string_of_slice, trim, trim_chars, trim_str, views, words, decimal,
};

verus! {

pub const DEFAULT_API_KEY_ENV: &'static str = "VOLCENGINE_API_KEY";

pub const DEFAULT_BASE_URL: &'static str = "https://openspeech.bytedance.com/api/v3/tts/unidirectional";

pub const DEFAULT_VOLCENGINE_URL: &'static str = "https://openspeech.bytedance.com/api/v3/tts/unidirectional";

pub const DEFAULT_RESOURCE_ID: &'static str = "seed-tts-2.0";

pub const DEFAULT_VOLCENGINE_RESOURCE_ID: &'static str = "volc.service_type.10029";

pub const DEFAULT_VOLCENGINE_APP_KEY: &'static str = "aGjiRDfUWi";

pub const DEFAULT_MODEL: &'static str = "seed-tts-2.0-standard";

pub const DEFAULT_VOICE: &'static str = "zh_female_shuangkuaisisi_uranus_bigtts";

pub const DEFAULT_FORMAT: &'static str = "mp3";

/// Which service synthesizes the speech.
#[derive(Clone, Copy, Debug, PartialEq, Eq, Structural)]
pub enum TtsProvider {
    Gateway,
    Volcengine,
}

/// Values given to `tts config`; each one given replaces the saved one.
#[derive(Clone, Debug)]
pub struct TtsConfigOptions {
    pub api_key: Option<String>,
    pub base_url: Option<String>,
    pub provider: Option<TtsProvider>,
    pub app_id: Option<String>,
    pub app_key: Option<String>,
    pub access_key: Option<String>,
    pub resource_id: Option<String>,
    pub voice: Option<String>,
    pub model: Option<String>,
}

/// The saved TTS config.
#[derive(Clone, Debug)]
pub struct TtsConfig {
    pub api_key: Option<String>,
    pub base_url: Option<String>,
    pub provider: Option<TtsProvider>,
    pub app_id: Option<String>,
    pub app_key: Option<String>,
    pub access_key: Option<String>,
    pub resource_id: Option<String>,
    pub voice: Option<String>,
    pub model: Option<String>,
}

pub open spec fn opt_str(o: Option<String>) -> Option<Seq<char>> {
    match o {
        Some(s) => Some(s@),
        None => None,
    }
}

pub fn clone_opt(o: &Option<String>) -> (r: Option<String>)
    ensures
        opt_str(r) == opt_str(*o),
{
    match o {
        Some(s) => Some(s.clone()),
        None => None,
    }
}

// ---------------------------------------------------------------------------
// Defaults
// ---------------------------------------------------------------------------

/// The output file when none is given: `speech.mp3`.
pub fn default_output() -> (s: String)
    ensures
        s@ == "speech."@ + DEFAULT_FORMAT@,
{
    String::from_str("speech.").concat(DEFAULT_FORMAT)
}

pub fn default_voice() -> (s: String)
    ensures
        s@ == DEFAULT_VOICE@,
{
    String::from_str(DEFAULT_VOICE)
}

pub fn default_model() -> (s: String)
    ensures
        s@ == DEFAULT_MODEL@,
{
    String::from_str(DEFAULT_MODEL)
}

pub fn default_format() -> (s: String)
    ensures
        s@ == DEFAULT_FORMAT@,
{
    String::from_str(DEFAULT_FORMAT)
}

pub fn default_base_url() -> (s: String)
    ensures
        s@ == DEFAULT_BASE_URL@,
{
    String::from_str(DEFAULT_BASE_URL)
}

pub fn default_volcengine_url() -> (s: String)
    ensures
        s@ == DEFAULT_VOLCENGINE_URL@,
{
    String::from_str(DEFAULT_VOLCENGINE_URL)
}

pub fn default_api_key_env() -> (s: String)
    ensures
        s@ == DEFAULT_API_KEY_ENV@,
{
    String::from_str(DEFAULT_API_KEY_ENV)
}

pub fn default_resource_id() -> (s: String)
    ensures
        s@ == DEFAULT_RESOURCE_ID@,
{
    String::from_str(DEFAULT_RESOURCE_ID)
}

fn default_volcengine_resource_id() -> (s: String)
    ensures
        s@ == DEFAULT_VOLCENGINE_RESOURCE_ID@,
{
    String::from_str(DEFAULT_VOLCENGINE_RESOURCE_ID)
}

pub fn default_app_key() -> (s: String)
    ensures
        s@ == DEFAULT_VOLCENGINE_APP_KEY@,
{
    String::from_str(DEFAULT_VOLCENGINE_APP_KEY)
}

// ---------------------------------------------------------------------------
// Saving the config
// ---------------------------------------------------------------------------

pub open spec fn override_with(given: Option<String>, saved: Option<String>) -> Option<Seq<char>> {
    if given is Some {
        opt_str(given)
    } else {
        opt_str(saved)
    }
}

fn take_override(given: Option<String>, saved: Option<String>) -> (r: Option<String>)
    ensures
        opt_str(r) == override_with(given, saved),
{
    match given {
        Some(v) => Some(v),
        None => saved,
    }
}

/// The config after `tts config`: every value given replaces the saved one.
pub fn merge_config(config: TtsConfig, options: TtsConfigOptions) -> (r: TtsConfig)
    ensures
        opt_str(r.api_key) == override_with(options.api_key, config.api_key),
        opt_str(r.base_url) == override_with(options.base_url, config.base_url),
        r.provider == (if options.provider is Some {
            options.provider
        } else {
            config.provider
        }),
        opt_str(r.app_id) == override_with(options.app_id, config.app_id),
        opt_str(r.app_key) == override_with(options.app_key, config.app_key),
        opt_str(r.access_key) == override_with(options.access_key, config.access_key),
        opt_str(r.resource_id) == override_with(options.resource_id, config.resource_id),
        opt_str(r.voice) == override_with(options.voice, config.voice),
        opt_str(r.model) == override_with(options.model, config.model),
{
    TtsConfig {
        api_key: take_override(options.api_key, config.api_key),
        base_url: take_override(options.base_url, config.base_url),
        provider: match options.provider {
            Some(p) => Some(p),
            None => config.provider,
        },
        app_id: take_override(options.app_id, config.app_id),
        app_key: take_override(options.app_key, config.app_key),
        access_key: take_override(options.access_key, config.access_key),
        resource_id: take_override(options.resource_id, config.resource_id),
        voice: take_override(options.voice, config.voice),
        model: take_override(options.model, config.model),
    }
}

/// Whether a config can be saved as it is.
pub enum ConfigCheck {
    Complete,
    /// The Volcengine provider needs an app id and an access key.
    MissingVolcengineCredentials,
    /// The gateway needs an API key: ask for one.
    NeedsApiKey,
}

pub fn check_config(config: &TtsConfig) -> (c: ConfigCheck)
    ensures
        config.provider == Some(TtsProvider::Volcengine) ==> (if config.app_id is None
            || config.access_key is None {
            c is MissingVolcengineCredentials
        } else {
            c is Complete
        }),
        config.provider != Some(TtsProvider::Volcengine) ==> (if config.api_key is None {
            c is NeedsApiKey
        } else {
            c is Complete
        }),
{
    let volcengine = match config.provider {
        Some(TtsProvider::Volcengine) => true,
        _ => false,
    };
    if volcengine {
        if config.app_id.is_none() || config.access_key.is_none() {
            ConfigCheck::MissingVolcengineCredentials
        } else {
            ConfigCheck::Complete
        }
    } else if config.api_key.is_none() {
        ConfigCheck::NeedsApiKey
    } else {
        ConfigCheck::Complete
    }
}

// ---------------------------------------------------------------------------
// Checking the options
// ---------------------------------------------------------------------------

/// Why `tts` refuses its options, in the order the checks are made.
#[derive(Clone, Copy, Debug, PartialEq, Eq, Structural)]
pub enum TtsOptionError {
    TextAndFile,
    NoInput,
    SpeedOutOfRange,
    EmptyFormat,
    EmptyBaseUrl,
    EmptyVolcengineUrl,
}

pub open spec fn spec_validate_options(
    has_text: bool,
    has_file: bool,
    speed_in_range: bool,
    format: Seq<char>,
    base_url: Seq<char>,
    volcengine_url: Seq<char>,
) -> Result<(), TtsOptionError> {
    if has_text && has_file {
        Err(TtsOptionError::TextAndFile)
    } else if !has_text && !has_file {
        Err(TtsOptionError::NoInput)
    } else if !speed_in_range {
        Err(TtsOptionError::SpeedOutOfRange)
    } else if trim(format).len() == 0 {
        Err(TtsOptionError::EmptyFormat)
    } else if trim(base_url).len() == 0 {
        Err(TtsOptionError::EmptyBaseUrl)
    } else if trim(volcengine_url).len() == 0 {
        Err(TtsOptionError::EmptyVolcengineUrl)
    } else {
        Ok(())
    }
}

/// Exactly one of text and file, a speed in range (0.25 to 4.0, tested by
/// the caller), and a format and both URLs that are not blank.
pub fn validate_options(
    has_text: bool,
    has_file: bool,
    speed_in_range: bool,
    format: &str,
    base_url: &str,
    volcengine_url: &str,
) -> (r: Result<(), TtsOptionError>)
    ensures
        r == spec_validate_options(
            has_text,
            has_file,
            speed_in_range,
            format@,
            base_url@,
            volcengine_url@,
        ),
{
    if has_text && has_file {
        return Err(TtsOptionError::TextAndFile);
    }
    if !has_text && !has_file {
        return Err(TtsOptionError::NoInput);
    }
    if !speed_in_range {
        return Err(TtsOptionError::SpeedOutOfRange);
    }
    if trim_chars(&chars_of(format)).len() == 0 {
        return Err(TtsOptionError::EmptyFormat);
    }
    if trim_chars(&chars_of(base_url)).len() == 0 {
        return Err(TtsOptionError::EmptyBaseUrl);
    }
    if trim_chars(&chars_of(volcengine_url)).len() == 0 {
        return Err(TtsOptionError::EmptyVolcengineUrl);
    }
    Ok(())
}

/// Whether speech input is blank.
pub fn is_blank(text: &str) -> (b: bool)
    ensures
        b == (trim(text@).len() == 0),
{
    trim_chars(&chars_of(text)).len() == 0
}

// ---------------------------------------------------------------------------
// Resolving the settings of a request
// ---------------------------------------------------------------------------

/// A command-line value left at its default gives way to the saved one.
pub open spec fn spec_choose_setting(cli: Seq<char>, default: Seq<char>, saved: Option<String>) -> Seq<
    char,
> {
    if cli == default && saved is Some {
        saved->0@
    } else {
        cli
    }
}

/// A command-line value other than its default is used as given; at the
/// default, a saved value is used when there is one, else the default.
pub proof fn lemma_choose_setting(cli: Seq<char>, default: Seq<char>, saved: Option<String>)
    ensures
        cli != default ==> spec_choose_setting(cli, default, saved) == cli,
        cli == default && saved is Some ==> spec_choose_setting(cli, default, saved) == saved->0@,
        cli == default && saved is None ==> spec_choose_setting(cli, default, saved) == default,
{
}

pub fn choose_setting(cli: &str, default: &str, saved: &Option<String>) -> (r: String)
    ensures
        r@ == spec_choose_setting(cli@, default@, *saved),
        cli@ != default@ ==> r@ == cli@,
        cli@ == default@ && saved is Some ==> r@ == saved->0@,
        cli@ == default@ && saved is None ==> r@ == default@,
{
    if str_eq(cli, default) {
        match saved {
            Some(v) => v.clone(),
            None => String::from_str(cli),
        }
    } else {
        String::from_str(cli)
    }
}

/// The gateway on the command line gives way to a saved provider.
pub fn choose_provider(cli: TtsProvider, saved: Option<TtsProvider>) -> (r: TtsProvider)
    ensures
        r == (if cli == TtsProvider::Gateway && saved is Some {
            saved->0
        } else {
            cli
        }),
{
    if cli == TtsProvider::Gateway {
        match saved {
            Some(p) => p,
            None => cli,
        }
    } else {
        cli
    }
}

/// The settings a request is made with.
pub struct Settings {
    pub base_url: String,
    pub model: String,
    pub voice: String,
    pub provider: TtsProvider,
}

pub fn resolve_settings(
    base_url: &str,
    model: &str,
    voice: &str,
    provider: TtsProvider,
    config: &TtsConfig,
) -> (s: Settings)
    ensures
        s.base_url@ == spec_choose_setting(base_url@, DEFAULT_BASE_URL@, config.base_url),
        s.model@ == spec_choose_setting(model@, DEFAULT_MODEL@, config.model),
        s.voice@ == spec_choose_setting(voice@, DEFAULT_VOICE@, config.voice),
        base_url@ != DEFAULT_BASE_URL@ ==> s.base_url@ == base_url@,
        model@ != DEFAULT_MODEL@ ==> s.model@ == model@,
        voice@ != DEFAULT_VOICE@ ==> s.voice@ == voice@,
        s.provider == (if provider == TtsProvider::Gateway && config.provider is Some {
            config.provider->0
        } else {
            provider
        }),
{
    Settings {
        base_url: choose_setting(base_url, DEFAULT_BASE_URL, &config.base_url),
        model: choose_setting(model, DEFAULT_MODEL, &config.model),
        voice: choose_setting(voice, DEFAULT_VOICE, &config.voice),
        provider: choose_provider(provider, config.provider),
    }
}

/// A resource id left at its default gives way to a saved one that is not
/// blank (trimmed).
pub open spec fn spec_resolve_resource_id(cli: Seq<char>, saved: Option<Seq<char>>, default: Seq<
    char,
>) -> Seq<char> {
    if cli != default {
        cli
    } else if saved is Some && trim(saved->0).len() > 0 {
        trim(saved->0)
    } else {
        default
    }
}

pub fn resolve_resource_id(cli_value: &str, config_value: Option<&str>, default_value: &str) -> (r:
    String)
    ensures
        r@ == spec_resolve_resource_id(
            cli_value@,
            match config_value {
                Some(v) => Some(v@),
                None => None,
            },
            default_value@,
        ),
        cli_value@ != default_value@ ==> r@ == cli_value@,
{
    if !str_eq(cli_value, default_value) {
        return String::from_str(cli_value);
    }
    match config_value {
        Some(v) => {
            let t = trim_str(v);
            if t.as_str().is_empty() {
                String::from_str(default_value)
            } else {
                t
            }
        },
        None => String::from_str(default_value),
    }
}

/// The Volcengine resource id: at its Volcengine default the saved one wins;
/// at the gateway default the saved one, else the Volcengine default.
pub open spec fn spec_volcengine_resource_id(cli: Seq<char>, saved: Option<String>) -> Seq<char> {
    if cli == DEFAULT_VOLCENGINE_RESOURCE_ID@ {
        if saved is Some {
            saved->0@
        } else {
            cli
        }
    } else if cli == DEFAULT_RESOURCE_ID@ {
        if saved is Some {
            saved->0@
        } else {
            DEFAULT_VOLCENGINE_RESOURCE_ID@
        }
    } else {
        cli
    }
}

pub fn volcengine_resource_id(cli: &str, saved: &Option<String>) -> (r: String)
    ensures
        r@ == spec_volcengine_resource_id(cli@, *saved),
        cli@ != DEFAULT_VOLCENGINE_RESOURCE_ID@ && cli@ != DEFAULT_RESOURCE_ID@ ==> r@ == cli@,
{
    if str_eq(cli, DEFAULT_VOLCENGINE_RESOURCE_ID) {
        match saved {
            Some(v) => v.clone(),
            None => String::from_str(cli),
        }
    } else if str_eq(cli, DEFAULT_RESOURCE_ID) {
        match saved {
            Some(v) => v.clone(),
            None => default_volcengine_resource_id(),
        }
    } else {
        String::from_str(cli)
    }
}

/// The first of the command-line value and the saved value that is not
/// blank, trimmed.
pub open spec fn spec_resolve_field(cli: Option<Seq<char>>, saved: Option<Seq<char>>) -> Option<
    Seq<char>,
> {
    if cli is Some && trim(cli->0).len() > 0 {
        Some(trim(cli->0))
    } else if saved is Some && trim(saved->0).len() > 0 {
        Some(trim(saved->0))
    } else {
        None
    }
}

pub open spec fn opt_ref_view(o: Option<&str>) -> Option<Seq<char>> {
    match o {
        Some(v) => Some(v@),
        None => None,
    }
}

/// A required setting; when it is missing the error says how to set it.
pub fn resolve_field(label: &str, command_hint: &str, cli_value: Option<&str>, config_value: Option<
    &str,
>) -> (r: Result<String, String>)
    ensures
        match spec_resolve_field(opt_ref_view(cli_value), opt_ref_view(config_value)) {
            Some(v) => r matches Ok(s) && s@ == v,
            None => r matches Err(e) && e@ == label@ + " is not configured.\nSet it with: "@
                + command_hint@,
        },
{
    if let Some(v) = cli_value {
        let t = trim_str(v);
        if !t.as_str().is_empty() {
            return Ok(t);
        }
    }
    if let Some(v) = config_value {
        let t = trim_str(v);
        if !t.as_str().is_empty() {
            return Ok(t);
        }
    }
    let mut e = String::from_str(label);
    push_str(&mut e, " is not configured.\nSet it with: ");
    push_str(&mut e, command_hint);
    Err(e)
}

/// The gateway API key from the environment, else from the config, when
/// either is not blank (trimmed); `None` means the user must be asked.
pub fn configured_api_key(env_value: Option<&str>, config_value: Option<&str>) -> (r: Option<String>)
    ensures
        match spec_resolve_field(opt_ref_view(env_value), opt_ref_view(config_value)) {
            Some(v) => r matches Some(s) && s@ == v,
            None => r is None,
        },
{
    if let Some(v) = env_value {
        let t = trim_str(v);
        if !t.as_str().is_empty() {
            return Some(t);
        }
    }
    if let Some(v) = config_value {
        let t = trim_str(v);
        if !t.as_str().is_empty() {
            return Some(t);
        }
    }
    None
}

// ---------------------------------------------------------------------------
// Error bodies and curl config values
// ---------------------------------------------------------------------------

/// Error bodies are shown trimmed and cut to this many characters.
pub const ERROR_BODY_LIMIT: usize = 1200;

pub open spec fn spec_truncate_error_body(body: Seq<char>) -> Seq<char> {
    let t = trim(body);
    if t.len() <= ERROR_BODY_LIMIT {
        t
    } else {
        t.take(ERROR_BODY_LIMIT as int) + "..."@
    }
}

pub fn truncate_error_body(body: &str) -> (r: String)
    ensures
        r@ == spec_truncate_error_body(body@),
{
    let t = trim_chars(&chars_of(body));
    if t.len() <= ERROR_BODY_LIMIT {
        return string_of(&t);
    }
    let mut r = string_of_slice(&t, 0, ERROR_BODY_LIMIT);
    push_str(&mut r, "...");
    r
}

pub open spec fn escape_char(c: char) -> Seq<char> {
    if c == '\\' || c == '"' {
        seq!['\\', c]
    } else {
        seq![c]
    }
}

/// A value written inside double quotes in a curl config: backslashes and
/// double quotes get a backslash before them.
pub open spec fn escape(s: Seq<char>) -> Seq<char>
    decreases s.len(),
{
    if s.len() == 0 {
        s
    } else {
        escape_char(s[0]) + escape(s.drop_first())
    }
}

/// Reads an escaped value back: a backslash stands for the character
/// after it.
pub open spec fn unescape(s: Seq<char>) -> Seq<char>
    decreases s.len(),
{
    if s.len() == 0 {
        s
    } else if s[0] == '\\' && s.len() >= 2 {
        seq![s[1]] + unescape(s.skip(2))
    } else {
        seq![s[0]] + unescape(s.drop_first())
    }
}

proof fn lemma_escape_push(s: Seq<char>, c: char)
    ensures
        escape(s.push(c)) == escape(s) + escape_char(c),
    decreases s.len(),
{
    if s.len() == 0 {
        assert(s.push(c).drop_first() =~= Seq::<char>::empty());
        assert(escape(Seq::<char>::empty()) == Seq::<char>::empty());
        assert(escape(s.push(c)) == escape_char(c) + escape(Seq::<char>::empty()));
        assert(escape(s.push(c)) =~= escape_char(c));
        assert(escape(s) == Seq::<char>::empty());
    } else {
        lemma_escape_push(s.drop_first(), c);
        assert(s.push(c).drop_first() =~= s.drop_first().push(c));
        assert(escape(s.push(c)) =~= escape(s) + escape_char(c));
    }
}

/// Escaping loses nothing: unescaping an escaped value gives it back.
pub proof fn lemma_unescape_escape(s: Seq<char>)
    ensures
        unescape(escape(s)) == s,
    decreases s.len(),
{
    if s.len() > 0 {
        lemma_unescape_escape(s.drop_first());
        let e = escape(s);
        let rest = escape(s.drop_first());
        if s[0] == '\\' || s[0] == '"' {
            assert(e == seq!['\\', s[0]] + rest);
            assert(e.skip(2) =~= rest);
        } else {
            assert(e == seq![s[0]] + rest);
            assert(e.drop_first() =~= rest);
        }
        assert(unescape(e) =~= s);
    }
}

pub fn escape_curl_config_value(value: &str) -> (r: String)
    ensures
        r@ == escape(value@),
{
    let v = chars_of(value);
    let mut r = String::new();
    let n = v.len();
    let mut i: usize = 0;
    assert(v@.take(0) =~= Seq::<char>::empty());
    while i < n
        invariant
            n == v@.len(),
            i <= n,
            r@ == escape(v@.take(i as int)),
        decreases n - i,
    {
        let c = v[i];
        if c == '\\' || c == '"' {
            push_char(&mut r, '\\');
        }
        push_char(&mut r, c);
        proof {
            assert(v@.take(i + 1) =~= v@.take(i as int).push(c));
            lemma_escape_push(v@.take(i as int), c);
            assert(r@ =~= escape(v@.take(i + 1)));
        }
        i = i + 1;
    }
    assert(v@.take(n as int) =~= v@);
    r
}

/// The curl config of a gateway request: its headers.
pub open spec fn spec_gateway_curl_config(api_key: Seq<char>, resource_id: Seq<char>, request_id: Seq<
    char,
>) -> Seq<char> {
    "header = \"Content-Type: application/json\"\nheader = \"X-Api-Key: "@ + escape(api_key)
        + "\"\nheader = \"X-Api-Resource-Id: "@ + escape(resource_id)
        + "\"\nheader = \"X-Api-Request-Id: "@ + request_id + "\"\n"@
}

pub fn gateway_curl_config(api_key: &str, resource_id: &str, request_id: &str) -> (r: String)
    ensures
        r@ == spec_gateway_curl_config(api_key@, resource_id@, request_id@),
{
    let mut r = String::from_str("header = \"Content-Type: application/json\"\nheader = \"X-Api-Key: ");
    let k = escape_curl_config_value(api_key);
    push_str(&mut r, k.as_str());
    push_str(&mut r, "\"\nheader = \"X-Api-Resource-Id: ");
    let id = escape_curl_config_value(resource_id);
    push_str(&mut r, id.as_str());
    push_str(&mut r, "\"\nheader = \"X-Api-Request-Id: ");
    push_str(&mut r, request_id);
    push_str(&mut r, "\"\n");
    r
}

/// The curl config of a Volcengine request: its headers.
pub open spec fn spec_volcengine_curl_config(
    app_id: Seq<char>,
    app_key: Seq<char>,
    access_key: Seq<char>,
    resource_id: Seq<char>,
    request_id: Seq<char>,
) -> Seq<char> {
    "header = \"Content-Type: application/json\"\nheader = \"Accept: text/event-stream\"\nheader = \"Connection: keep-alive\"\nheader = \"X-Api-App-Id: "@
        + escape(app_id) + "\"\nheader = \"X-Api-App-Key: "@ + escape(app_key)
        + "\"\nheader = \"X-Api-Access-Key: "@ + escape(access_key)
        + "\"\nheader = \"X-Api-Resource-Id: "@ + escape(resource_id)
        + "\"\nheader = \"X-Api-Request-Id: "@ + request_id + "\"\n"@
}

pub fn volcengine_curl_config(
    app_id: &str,
    app_key: &str,
    access_key: &str,
    resource_id: &str,
    request_id: &str,
) -> (r: String)
    ensures
        r@ == spec_volcengine_curl_config(
            app_id@,
            app_key@,
            access_key@,
            resource_id@,
            request_id@,
        ),
{
    let mut r = String::from_str(
        "header = \"Content-Type: application/json\"\nheader = \"Accept: text/event-stream\"\nheader = \"Connection: keep-alive\"\nheader = \"X-Api-App-Id: ",
    );
    let a = escape_curl_config_value(app_id);
    push_str(&mut r, a.as_str());
    push_str(&mut r, "\"\nheader = \"X-Api-App-Key: ");
    let b = escape_curl_config_value(app_key);
    push_str(&mut r, b.as_str());
    push_str(&mut r, "\"\nheader = \"X-Api-Access-Key: ");
    let c = escape_curl_config_value(access_key);
    push_str(&mut r, c.as_str());
    push_str(&mut r, "\"\nheader = \"X-Api-Resource-Id: ");
    let d = escape_curl_config_value(resource_id);
    push_str(&mut r, d.as_str());
    push_str(&mut r, "\"\nheader = \"X-Api-Request-Id: ");
    push_str(&mut r, request_id);
    push_str(&mut r, "\"\n");
    r
}

// ---------------------------------------------------------------------------
// The reply
// ---------------------------------------------------------------------------

/// What curl printed with `--write-out "%{http_code} %{content_type}"`,
/// trimmed.
pub open spec fn curl_meta(stdout: Seq<char>) -> Seq<char> {
    trim(stdout)
}

/// The HTTP status: the first word of curl's meta line as a `u16`, else 0.
pub open spec fn spec_status_code(stdout: Seq<char>) -> u16 {
    let ws = words(curl_meta(stdout));
    if ws.len() > 0 && parse_unsigned(ws[0], 65535) is Some {
        parse_unsigned(ws[0], 65535)->0 as u16
    } else {
        0
    }
}

/// The content type: what follows the first space of the meta line.
pub open spec fn spec_content_type(stdout: Seq<char>) -> Seq<char> {
    let m = curl_meta(stdout);
    let k = first_index_of(m, ' ');
    if k < m.len() {
        m.skip(k + 1)
    } else {
        Seq::<char>::empty()
    }
}

pub fn read_curl_meta(stdout: &str) -> (r: (u16, String))
    ensures
        r.0 == spec_status_code(stdout@),
        r.1@ == spec_content_type(stdout@),
{
    let m = trim_chars(&chars_of(stdout));
    let ws = split_words(&m);
    let status: u16 = if ws.len() > 0 {
        let w = chars_of(ws[0].as_str());
        assert(w@ == views(ws@)[0]);
        match parse_unsigned_chars(&w, 65535) {
            Some(x) => x as u16,
            None => 0,
        }
    } else {
        0
    };
    let k = index_of_char(&m, ' ');
    proof {
        lemma_first_index_of(m@, ' ');
    }
    let ct = if k < m.len() {
        string_of_slice(&m, k + 1, m.len())
    } else {
        String::new()
    };
    assert(k < m.len() ==> m@.subrange(k + 1, m@.len() as int) =~= m@.skip(k + 1));
    (status, ct)
}

/// A request failed when curl failed or the status is not 2xx.
pub fn request_failed(curl_succeeded: bool, status: u16) -> (b: bool)
    ensures
        b == (!curl_succeeded || !(200 <= status < 300)),
{
    !curl_succeeded || !(200 <= status && status < 300)
}

/// What a failed request reports: the reply body, else curl's error
/// output, trimmed.
pub open spec fn spec_error_detail(response: Seq<char>, stderr: Seq<char>) -> Seq<char> {
    if trim(response).len() == 0 {
        trim(stderr)
    } else {
        trim(response)
    }
}

/// The message of a failed request: `"<service> request failed with HTTP
/// <status>.\n<detail>"`, the detail cut to `ERROR_BODY_LIMIT`.
pub open spec fn spec_failure_message(service: Seq<char>, status: u16, response: Seq<char>, stderr: Seq<
    char,
>) -> Seq<char> {
    service + " request failed with HTTP "@ + decimal(status as nat) + ".\n"@
        + spec_truncate_error_body(spec_error_detail(response, stderr))
}

pub fn failure_message(service: &str, status: u16, response: &str, stderr: &str) -> (r: String)
    ensures
        r@ == spec_failure_message(service@, status, response@, stderr@),
{
    let resp = trim_str(response);
    let detail = if resp.as_str().is_empty() {
        trim_str(stderr)
    } else {
        resp
    };
    assert(detail@ == spec_error_detail(response@, stderr@));
    let mut r = String::from_str(service);
    push_str(&mut r, " request failed with HTTP ");
    push_decimal(&mut r, status as u64);
    push_str(&mut r, ".\n");
    let body = truncate_error_body(detail.as_str());
    push_str(&mut r, body.as_str());
    r
}

/// The non-blank lines of a streamed reply, trimmed.
pub open spec fn spec_response_lines(response: Seq<char>) -> Seq<Seq<char>>
    decreases response.len(),
{
    keep_nonblank(lines(response))
}

/// No reply line is lost: every line that is not blank is taken, trimmed,
/// and only those are.
pub proof fn lemma_response_lines_complete(response: Seq<char>)
    ensures
        forall|i: int|
            0 <= i < lines(response).len() && trim(#[trigger] lines(response)[i]).len() > 0
                ==> spec_response_lines(response).contains(trim(lines(response)[i])),
        forall|p: Seq<char>| #[trigger]
            spec_response_lines(response).contains(p) ==> p.len() > 0 && exists|i: int|
                0 <= i < lines(response).len() && p == trim(#[trigger] lines(response)[i]),
{
    crate::text::lemma_keep_nonblank_complete(lines(response));
}

pub fn response_lines(response: &str) -> (r: Vec<String>)
    ensures
        views(r@) == spec_response_lines(response@),
{
    let ls = split_lines(&chars_of(response));
    let mut r: Vec<String> = Vec::new();
    let n = ls.len();
    let mut i: usize = 0;
    assert(views(ls@).take(0) =~= Seq::<Seq<char>>::empty());
    while i < n
        invariant
            n == ls@.len(),
            i <= n,
            views(r@) == keep_nonblank(views(ls@).take(i as int)),
        decreases n - i,
    {
        assert(views(ls@).take(i + 1).drop_last() =~= views(ls@).take(i as int));
        assert(views(ls@).take(i + 1).last() == ls@[i as int]@);
        let t = trim_str(ls[i].as_str());
        if !t.as_str().is_empty() {
            let ghost before = views(r@);
            r.push(t);
            assert(views(r@) =~= before.push(t@));
        }
        i = i + 1;
    }
    assert(views(ls@).take(n as int) =~= views(ls@));
    r
}

/// The decimal text of a signed number.
pub open spec fn signed_decimal(n: int) -> Seq<char> {
    if n < 0 {
        seq!['-'] + decimal((-n) as nat)
    } else {
        decimal(n as nat)
    }
}

pub fn push_signed_decimal(s: &mut String, n: i64)
    ensures
        final(s)@ == old(s)@ + signed_decimal(n as int),
{
    if n < 0 {
        push_char(s, '-');
        let m: u64 = (0i128 - (n as i128)) as u64;
        push_decimal(s, m);
        assert(final(s)@ =~= old(s)@ + signed_decimal(n as int));
    } else {
        push_decimal(s, n as u64);
    }
}

/// One line of a streamed Volcengine reply: a status code and message, the
/// same in a header, and a chunk of base64 audio.
pub struct ResponseLine {
    pub code: Option<i64>,
    pub message: Option<String>,
    pub header_code: Option<i64>,
    pub header_message: Option<String>,
    pub data: Option<String>,
}

/// A response line whose audio chunk was decoded: `None` when it had none,
/// `Some(None)` when the chunk was not valid base64.
pub struct DecodedLine {
    pub code: Option<i64>,
    pub message: Option<String>,
    pub header_code: Option<i64>,
    pub header_message: Option<String>,
    pub audio: Option<Option<Vec<u8>>>,
}

pub struct DecodedLineSpec {
    pub code: Option<i64>,
    pub message: Option<Seq<char>>,
    pub header_code: Option<i64>,
    pub header_message: Option<Seq<char>>,
    pub audio: Option<Option<Seq<u8>>>,
}

impl View for DecodedLine {
    type V = DecodedLineSpec;

    open spec fn view(&self) -> DecodedLineSpec {
        DecodedLineSpec {
            code: self.code,
            message: opt_str(self.message),
            header_code: self.header_code,
            header_message: opt_str(self.header_message),
            audio: match self.audio {
                None => None,
                Some(None) => Some(None),
                Some(Some(v)) => Some(Some(v@)),
            },
        }
    }
}

pub open spec fn decoded_views(v: Seq<Option<DecodedLine>>) -> Seq<Option<DecodedLineSpec>> {
    v.map_values(
        |l: Option<DecodedLine>|
            match l {
                Some(x) => Some(x@),
                None => None,
            },
    )
}

/// Why a reply gave no audio.
pub enum AudioError {
    /// A line of the reply is not a JSON response line.
    BadLine,
    /// An audio chunk is not valid base64.
    BadAudioData,
    /// The reply held no audio; the last error status it reported, if any.
    NoAudio { last_error: Option<String> },
}

pub enum AudioErrorSpec {
    BadLine,
    BadAudioData,
    NoAudio { last_error: Option<Seq<char>> },
}

pub open spec fn audio_error_view(e: AudioError) -> AudioErrorSpec {
    match e {
        AudioError::BadLine => AudioErrorSpec::BadLine,
        AudioError::BadAudioData => AudioErrorSpec::BadAudioData,
        AudioError::NoAudio { last_error } => AudioErrorSpec::NoAudio { last_error: opt_str(last_error) },
    }
}

/// The error a status reports: `"<code>: <message>"` for a code other than
/// 0 and 20000000.
pub open spec fn status_error(code: Option<i64>, message: Option<Seq<char>>) -> Option<Seq<char>> {
    match code {
        Some(c) => if c != 0 && c != 20000000 {
            Some(
                signed_decimal(c as int) + ": "@ + match message {
                    Some(m) => m,
                    None => "unknown error"@,
                },
            )
        } else {
            None
        },
        None => None,
    }
}

pub open spec fn audio_step(
    state: Result<(Seq<u8>, Option<Seq<char>>), AudioErrorSpec>,
    line: Option<DecodedLineSpec>,
) -> Result<(Seq<u8>, Option<Seq<char>>), AudioErrorSpec> {
    match state {
        Err(e) => Err(e),
        Ok((audio, last)) => match line {
            None => Err(AudioErrorSpec::BadLine),
            Some(l) => {
                let last1 = match status_error(l.code, l.message) {
                    Some(e) => Some(e),
                    None => last,
                };
                let last2 = match status_error(l.header_code, l.header_message) {
                    Some(e) => Some(e),
                    None => last1,
                };
                match l.audio {
                    None => Ok((audio, last2)),
                    Some(None) => Err(AudioErrorSpec::BadAudioData),
                    Some(Some(chunk)) => Ok((audio + chunk, last2)),
                }
            },
        },
    }
}

pub open spec fn audio_scan(ls: Seq<Option<DecodedLineSpec>>) -> Result<
    (Seq<u8>, Option<Seq<char>>),
    AudioErrorSpec,
>
    decreases ls.len(),
{
    if ls.len() == 0 {
        Ok((Seq::<u8>::empty(), None))
    } else {
        audio_step(audio_scan(ls.drop_last()), ls.last())
    }
}

/// The audio of a reply: its chunks in order, or the first bad line or bad
/// chunk, or, when there is no audio at all, the last error status.
pub open spec fn spec_assemble_audio(ls: Seq<Option<DecodedLineSpec>>) -> Result<Seq<u8>, AudioErrorSpec> {
    match audio_scan(ls) {
        Err(e) => Err(e),
        Ok((audio, last)) => if audio.len() == 0 {
            Err(AudioErrorSpec::NoAudio { last_error: last })
        } else {
            Ok(audio)
        },
    }
}

pub open spec fn audio_result_view(r: Result<Vec<u8>, AudioError>) -> Result<Seq<u8>, AudioErrorSpec> {
    match r {
        Ok(v) => Ok(v@),
        Err(e) => Err(audio_error_view(e)),
    }
}

fn status_error_text(code: Option<i64>, message: &Option<String>) -> (r: Option<String>)
    ensures
        opt_str(r) == status_error(code, opt_str(*message)),
{
    match code {
        Some(c) => if c != 0 && c != 20000000 {
            let mut e = String::new();
            push_signed_decimal(&mut e, c);
            push_str(&mut e, ": ");
            match message {
                Some(m) => push_str(&mut e, m.as_str()),
                None => push_str(&mut e, "unknown error"),
            }
            Some(e)
        } else {
            None
        },
        None => None,
    }
}

pub fn assemble_audio(lines: Vec<Option<DecodedLine>>) -> (r: Result<Vec<u8>, AudioError>)
    ensures
        audio_result_view(r) == spec_assemble_audio(decoded_views(lines@)),
{
    let ghost ls = decoded_views(lines@);
    let mut audio: Vec<u8> = Vec::new();
    let mut last_error: Option<String> = None;
    let n = lines.len();
    let mut i: usize = 0;
    assert(ls.take(0) =~= Seq::<Option<DecodedLineSpec>>::empty());
    while i < n
        invariant
            n == lines@.len(),
            ls == decoded_views(lines@),
            i <= n,
            audio_scan(ls.take(i as int)) == Ok::<(Seq<u8>, Option<Seq<char>>), AudioErrorSpec>(
                (audio@, opt_str(last_error)),
            ),
        decreases n - i,
    {
        assert(ls.take(i + 1).drop_last() =~= ls.take(i as int));
        assert(ls.take(i + 1).last() == ls[i as int]);
        let line = match &lines[i] {
            None => {
                proof {
                    assert(ls[i as int] is None);
                    assert(audio_scan(ls.take(i + 1)) == audio_step(
                        audio_scan(ls.take(i as int)),
                        ls[i as int],
                    ));
                    lemma_audio_error_sticks(ls, i + 1);
                    assert(spec_assemble_audio(ls) == Err::<Seq<u8>, AudioErrorSpec>(AudioErrorSpec::BadLine));
                }
                return Err(AudioError::BadLine);
            },
            Some(l) => l,
        };
        if let Some(e) = status_error_text(line.code, &line.message) {
            last_error = Some(e);
        }
        if let Some(e) = status_error_text(line.header_code, &line.header_message) {
            last_error = Some(e);
        }
        match &line.audio {
            None => {},
            Some(None) => {
                proof {
                    assert(ls[i as int] == Some(line@));
                    assert(audio_scan(ls.take(i + 1)) == audio_step(
                        audio_scan(ls.take(i as int)),
                        ls[i as int],
                    ));
                    lemma_audio_error_sticks(ls, i + 1);
                }
                return Err(AudioError::BadAudioData);
            },
            Some(Some(chunk)) => {
                let mut k: usize = 0;
                let ghost before = audio@;
                while k < chunk.len()
                    invariant
                        k <= chunk@.len(),
                        audio@ == before + chunk@.take(k as int),
                    decreases chunk@.len() - k,
                {
                    audio.push(chunk[k]);
                    assert(audio@ =~= before + chunk@.take(k + 1));
                    k = k + 1;
                }
                assert(chunk@.take(chunk@.len() as int) =~= chunk@);
            },
        }
        i = i + 1;
    }
    assert(ls.take(n as int) =~= ls);
    if audio.len() == 0 {
        Err(AudioError::NoAudio { last_error })
    } else {
        Ok(audio)
    }
}

/// What the standard base64 engine (with padding) decodes `text` to, or
/// `None` when it is not valid base64.
pub uninterp spec fn base64_standard_decode(text: Seq<char>) -> Option<Seq<u8>>;

/// `base64::engine::general_purpose::STANDARD.decode`: the bytes `text`
/// encodes, `None` on invalid input.
#[verifier::external_body]
fn decode_base64(text: &str) -> (r: Option<Vec<u8>>)
    ensures
        match r {
            Some(v) => base64_standard_decode(text@) == Some(v@),
            None => base64_standard_decode(text@) is None,
        },
{
    base64::engine::general_purpose::STANDARD.decode(text).ok()
}

pub open spec fn decode_line(l: ResponseLine) -> DecodedLineSpec {
    DecodedLineSpec {
        code: l.code,
        message: opt_str(l.message),
        header_code: l.header_code,
        header_message: opt_str(l.header_message),
        audio: match l.data {
            None => None,
            Some(d) => Some(base64_standard_decode(trim(d@))),
        },
    }
}

pub open spec fn decode_lines(ls: Seq<Option<ResponseLine>>) -> Seq<Option<DecodedLineSpec>> {
    ls.map_values(
        |l: Option<ResponseLine>|
            match l {
                Some(x) => Some(decode_line(x)),
                None => None,
            },
    )
}

/// The audio of a reply whose lines were parsed (`None` for a line that is
/// not a response line): each chunk is decoded, trimmed, from base64.
pub fn decode_response(lines: Vec<Option<ResponseLine>>) -> (r: Result<Vec<u8>, AudioError>)
    ensures
        audio_result_view(r) == spec_assemble_audio(decode_lines(lines@)),
{
    let mut out: Vec<Option<DecodedLine>> = Vec::new();
    let n = lines.len();
    let mut i: usize = 0;
    while i < n
        invariant
            n == lines@.len(),
            i <= n,
            decoded_views(out@) == decode_lines(lines@.take(i as int)),
        decreases n - i,
    {
        let d = match &lines[i] {
            None => None,
            Some(x) => {
                let audio = match &x.data {
                    None => None,
                    Some(data) => {
                        let t = trim_str(data.as_str());
                        Some(decode_base64(t.as_str()))
                    },
                };
                Some(
                    DecodedLine {
                        code: x.code,
                        message: clone_opt(&x.message),
                        header_code: x.header_code,
                        header_message: clone_opt(&x.header_message),
                        audio,
                    },
                )
            },
        };
        let ghost before = decoded_views(out@);
        out.push(d);
        assert(decoded_views(out@) =~= before.push(
            match d {
                Some(y) => Some(y@),
                None => None,
            },
        ));
        assert(lines@.take(i + 1) =~= lines@.take(i as int).push(lines@[i as int]));
        assert(decoded_views(out@) =~= decode_lines(lines@.take(i + 1)));
        i = i + 1;
    }
    assert(lines@.take(n as int) =~= lines@);
    assemble_audio(out)
}

/// Once a reply has a bad line or a bad chunk, later lines change nothing.
proof fn lemma_audio_error_sticks(ls: Seq<Option<DecodedLineSpec>>, k: int)
    requires
        0 <= k <= ls.len(),
        audio_scan(ls.take(k)) is Err,
    ensures
        audio_scan(ls) == audio_scan(ls.take(k)),
    decreases ls.len(),
{
    if k < ls.len() {
        assert(ls.drop_last().take(k) =~= ls.take(k));
        lemma_audio_error_sticks(ls.drop_last(), k);
    } else {
        assert(ls.take(k) =~= ls);
    }
}

/// A line that was read and whose audio, if any, was valid base64.
pub open spec fn good_line(l: Option<DecodedLineSpec>) -> bool {
    l matches Some(x) && !(x.audio matches Some(None))
}

/// The audio chunks of the lines, one after another.
pub open spec fn chunks(ls: Seq<Option<DecodedLineSpec>>) -> Seq<u8>
    decreases ls.len(),
{
    if ls.len() == 0 {
        Seq::<u8>::empty()
    } else {
        chunks(ls.drop_last()) + match ls.last() {
            Some(l) => match l.audio {
                Some(Some(c)) => c,
                _ => Seq::<u8>::empty(),
            },
            None => Seq::<u8>::empty(),
        }
    }
}

proof fn lemma_audio_scan_good(ls: Seq<Option<DecodedLineSpec>>)
    requires
        forall|i: int| 0 <= i < ls.len() ==> good_line(#[trigger] ls[i]),
    ensures
        (audio_scan(ls) matches Ok((audio, last)) && audio == chunks(ls)),
    decreases ls.len(),
{
    if ls.len() > 0 {
        let t = ls.drop_last();
        assert forall|i: int| 0 <= i < t.len() implies good_line(#[trigger] t[i]) by {
            assert(t[i] == ls[i]);
        }
        lemma_audio_scan_good(t);
        assert(good_line(ls[ls.len() - 1]));
    }
}

/// The audio of a reply whose lines were all read and whose chunks are
/// all valid is its chunks in order; when there are none, the reply is
/// answered with `NoAudio`. A bad line or a bad chunk, after good lines
/// only, is the answer whatever follows it.
pub proof fn lemma_assemble_audio(ls: Seq<Option<DecodedLineSpec>>, k: int)
    requires
        0 <= k <= ls.len(),
        forall|i: int| 0 <= i < k ==> good_line(#[trigger] ls[i]),
    ensures
        k == ls.len() && chunks(ls).len() > 0 ==> spec_assemble_audio(ls) == Ok::<
            Seq<u8>,
            AudioErrorSpec,
        >(chunks(ls)),
        k == ls.len() && chunks(ls).len() == 0 ==> spec_assemble_audio(ls) is Err && spec_assemble_audio(ls)->Err_0 is NoAudio,
        k < ls.len() && ls[k] is None ==> spec_assemble_audio(ls) == Err::<Seq<u8>, AudioErrorSpec>(
            AudioErrorSpec::BadLine,
        ),
        k < ls.len() && (ls[k] matches Some(l) && l.audio matches Some(None))
            ==> spec_assemble_audio(ls) == Err::<Seq<u8>, AudioErrorSpec>(AudioErrorSpec::BadAudioData),
{
    let p = ls.take(k);
    assert forall|i: int| 0 <= i < p.len() implies good_line(#[trigger] p[i]) by {
        assert(p[i] == ls[i]);
    }
    lemma_audio_scan_good(p);
    if k == ls.len() {
        assert(p =~= ls);
    } else {
        let q = ls.take(k + 1);
        assert(q.drop_last() =~= p);
        assert(q.last() == ls[k]);
        if ls[k] is None || (ls[k] matches Some(l) && l.audio matches Some(None)) {
            assert(audio_scan(q) is Err);
            lemma_audio_error_sticks(ls, k + 1);
        }
    }
}

} // verus!

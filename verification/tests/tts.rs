use launch::tts::{
    check_config, choose_provider, configured_api_key, decode_response, default_api_key_env,
    default_app_key, default_base_url, default_format, default_model, default_output,
    default_resource_id, default_voice, default_volcengine_url, escape_curl_config_value,
    failure_message, gateway_curl_config, is_blank, merge_config, read_curl_meta, request_failed,
    resolve_field, resolve_resource_id, resolve_settings, response_lines, truncate_error_body,
    validate_options, volcengine_curl_config, volcengine_resource_id, AudioError, ConfigCheck,
    ResponseLine, TtsConfig, TtsConfigOptions, TtsOptionError, TtsProvider,
};

fn empty_config() -> TtsConfig {
    TtsConfig {
        api_key: None,
        base_url: None,
        provider: None,
        app_id: None,
        app_key: None,
        access_key: None,
        resource_id: None,
        voice: None,
        model: None,
    }
}

fn no_options() -> TtsConfigOptions {
    TtsConfigOptions {
        api_key: None,
        base_url: None,
        provider: None,
        app_id: None,
        app_key: None,
        access_key: None,
        resource_id: None,
        voice: None,
        model: None,
    }
}

#[test]
fn defaults() {
    assert_eq!(default_output(), "speech.mp3");
    assert_eq!(default_voice(), "zh_female_shuangkuaisisi_uranus_bigtts");
    assert_eq!(default_model(), "seed-tts-2.0-standard");
    assert_eq!(default_format(), "mp3");
    assert_eq!(
        default_base_url(),
        "https://openspeech.bytedance.com/api/v3/tts/unidirectional"
    );
    assert_eq!(default_volcengine_url(), default_base_url());
    assert_eq!(default_api_key_env(), "VOLCENGINE_API_KEY");
    assert_eq!(default_resource_id(), "seed-tts-2.0");
    assert_eq!(default_app_key(), "aGjiRDfUWi");
}

#[test]
fn config_values_given_replace_saved_ones() {
    let mut saved = empty_config();
    saved.voice = Some("v1".to_string());
    saved.model = Some("m1".to_string());
    let mut opts = no_options();
    opts.voice = Some("v2".to_string());
    opts.provider = Some(TtsProvider::Volcengine);
    let c = merge_config(saved, opts);
    assert_eq!(c.voice.as_deref(), Some("v2"));
    assert_eq!(c.model.as_deref(), Some("m1"));
    assert_eq!(c.provider, Some(TtsProvider::Volcengine));
    assert!(matches!(check_config(&c), ConfigCheck::MissingVolcengineCredentials));
}

#[test]
fn config_checks() {
    let mut c = empty_config();
    assert!(matches!(check_config(&c), ConfigCheck::NeedsApiKey));
    c.api_key = Some("k".to_string());
    assert!(matches!(check_config(&c), ConfigCheck::Complete));
    c.provider = Some(TtsProvider::Volcengine);
    c.app_id = Some("a".to_string());
    assert!(matches!(check_config(&c), ConfigCheck::MissingVolcengineCredentials));
    c.access_key = Some("b".to_string());
    assert!(matches!(check_config(&c), ConfigCheck::Complete));
}

#[test]
fn option_errors_in_order() {
    assert_eq!(validate_options(true, true, true, "mp3", "u", "v"), Err(TtsOptionError::TextAndFile));
    assert_eq!(validate_options(false, false, true, "mp3", "u", "v"), Err(TtsOptionError::NoInput));
    assert_eq!(validate_options(true, false, false, "mp3", "u", "v"), Err(TtsOptionError::SpeedOutOfRange));
    assert_eq!(validate_options(true, false, true, " \t", "u", "v"), Err(TtsOptionError::EmptyFormat));
    assert_eq!(validate_options(false, true, true, "mp3", "", "v"), Err(TtsOptionError::EmptyBaseUrl));
    assert_eq!(validate_options(true, false, true, "mp3", "u", " "), Err(TtsOptionError::EmptyVolcengineUrl));
    assert_eq!(validate_options(true, false, true, "mp3", "u", "v"), Ok(()));
    assert!(is_blank(" \n\u{3000}"));
    assert!(!is_blank(" 你好 "));
}

#[test]
fn settings_left_at_default_give_way_to_saved() {
    let mut c = empty_config();
    c.base_url = Some("https://example.test".to_string());
    c.voice = Some("saved-voice".to_string());
    c.provider = Some(TtsProvider::Volcengine);
    let s = resolve_settings(
        "https://openspeech.bytedance.com/api/v3/tts/unidirectional",
        "my-model",
        "zh_female_shuangkuaisisi_uranus_bigtts",
        TtsProvider::Gateway,
        &c,
    );
    assert_eq!(s.base_url, "https://example.test");
    assert_eq!(s.model, "my-model");
    assert_eq!(s.voice, "saved-voice");
    assert_eq!(s.provider, TtsProvider::Volcengine);
    assert_eq!(choose_provider(TtsProvider::Volcengine, Some(TtsProvider::Gateway)), TtsProvider::Volcengine);
}

#[test]
fn resource_ids() {
    assert_eq!(resolve_resource_id("custom", Some("saved"), "seed-tts-2.0"), "custom");
    assert_eq!(resolve_resource_id("seed-tts-2.0", Some("  saved "), "seed-tts-2.0"), "saved");
    assert_eq!(resolve_resource_id("seed-tts-2.0", Some("  "), "seed-tts-2.0"), "seed-tts-2.0");
    assert_eq!(resolve_resource_id("seed-tts-2.0", None, "seed-tts-2.0"), "seed-tts-2.0");
    assert_eq!(volcengine_resource_id("seed-tts-2.0", &None), "volc.service_type.10029");
    assert_eq!(volcengine_resource_id("seed-tts-2.0", &Some("r".to_string())), "r");
    assert_eq!(volcengine_resource_id("volc.service_type.10029", &Some("r".to_string())), "r");
    assert_eq!(volcengine_resource_id("other", &Some("r".to_string())), "other");
}

#[test]
fn required_fields() {
    assert_eq!(resolve_field("App ID", "hint", Some(" a "), Some("b")), Ok("a".to_string()));
    assert_eq!(resolve_field("App ID", "hint", Some(" "), Some(" b")), Ok("b".to_string()));
    assert_eq!(
        resolve_field("App ID", "launch tts config", None, Some("")),
        Err("App ID is not configured.\nSet it with: launch tts config".to_string())
    );
    assert_eq!(configured_api_key(Some(" "), Some(" k ")), Some("k".to_string()));
    assert_eq!(configured_api_key(Some("e"), Some("k")), Some("e".to_string()));
    assert_eq!(configured_api_key(None, None), None);
}

#[test]
fn error_bodies_are_trimmed_and_cut() {
    assert_eq!(truncate_error_body("  oops \n"), "oops");
    let long = "x".repeat(1300);
    let t = truncate_error_body(&long);
    assert_eq!(t.chars().count(), 1203);
    assert!(t.ends_with("..."));
    assert_eq!(truncate_error_body(&"y".repeat(1200)), "y".repeat(1200));
}

#[test]
fn curl_values_are_escaped() {
    assert_eq!(escape_curl_config_value(r#"a"b\c"#), r#"a\"b\\c"#);
    assert_eq!(
        gateway_curl_config("k\"", "r", "42"),
        "header = \"Content-Type: application/json\"\nheader = \"X-Api-Key: k\\\"\"\nheader = \"X-Api-Resource-Id: r\"\nheader = \"X-Api-Request-Id: 42\"\n"
    );
    assert_eq!(
        volcengine_curl_config("a", "b", "c", "d", "7"),
        "header = \"Content-Type: application/json\"\nheader = \"Accept: text/event-stream\"\nheader = \"Connection: keep-alive\"\nheader = \"X-Api-App-Id: a\"\nheader = \"X-Api-App-Key: b\"\nheader = \"X-Api-Access-Key: c\"\nheader = \"X-Api-Resource-Id: d\"\nheader = \"X-Api-Request-Id: 7\"\n"
    );
}

#[test]
fn curl_meta_line() {
    assert_eq!(read_curl_meta(" 200 application/json\n"), (200, "application/json".to_string()));
    assert_eq!(read_curl_meta("000 "), (0, "".to_string()));
    assert_eq!(read_curl_meta("99999 text/plain"), (0, "text/plain".to_string()));
    assert_eq!(read_curl_meta(""), (0, "".to_string()));
    assert!(request_failed(false, 200));
    assert!(request_failed(true, 404));
    assert!(!request_failed(true, 204));
}

#[test]
fn failure_messages() {
    assert_eq!(
        failure_message("TTS", 401, "  {\"error\":1} ", "curl: x"),
        "TTS request failed with HTTP 401.\n{\"error\":1}"
    );
    assert_eq!(
        failure_message("Volcengine TTS", 0, " ", " curl: (6) no host "),
        "Volcengine TTS request failed with HTTP 0.\ncurl: (6) no host"
    );
}

fn line(code: Option<i64>, message: Option<&str>, data: Option<&str>) -> Option<ResponseLine> {
    Some(ResponseLine {
        code,
        message: message.map(|s| s.to_string()),
        header_code: None,
        header_message: None,
        data: data.map(|s| s.to_string()),
    })
}

#[test]
fn response_lines_drop_blanks() {
    assert_eq!(response_lines(" {\"a\":1}\n\n  \n{\"b\":2} \n"), vec!["{\"a\":1}", "{\"b\":2}"]);
}

#[test]
fn audio_chunks_are_decoded_and_joined() {
    let r = decode_response(vec![
        line(Some(0), None, Some(" aGVs ")),
        line(Some(20000000), None, None),
        line(None, None, Some("bG8=")),
    ]);
    assert_eq!(r.ok(), Some(b"hello".to_vec()));
}

#[test]
fn audio_errors() {
    assert!(matches!(decode_response(vec![line(None, None, Some("aGVs")), None]), Err(AudioError::BadLine)));
    assert!(matches!(decode_response(vec![line(None, None, Some("!!"))]), Err(AudioError::BadAudioData)));
    match decode_response(vec![line(Some(45000001), Some("bad voice"), None)]) {
        Err(AudioError::NoAudio { last_error }) => {
            assert_eq!(last_error.as_deref(), Some("45000001: bad voice"))
        }
        _ => panic!("expected no audio"),
    }
    let mut header = line(None, None, None).unwrap();
    header.header_code = Some(-3);
    match decode_response(vec![Some(header)]) {
        Err(AudioError::NoAudio { last_error }) => {
            assert_eq!(last_error.as_deref(), Some("-3: unknown error"))
        }
        _ => panic!("expected no audio"),
    }
    assert!(matches!(decode_response(vec![]), Err(AudioError::NoAudio { last_error: None })));
}

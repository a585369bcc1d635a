use jsonwebtoken::{encode, Algorithm, EncodingKey, Header};
use oxide_seeker::cli::{parse_config_arg, plan_startup, rescan_begins, run_mode, RunMode};
use oxide_seeker::config::Config;
use oxide_seeker::crash_handler::{crash_record, seh_code_name};
use oxide_seeker::error::AppError;
use oxide_seeker::indexer::worker_pool::IndexProgress;
use oxide_seeker::license::{
    accept_claims, describe_state, enter_license_key, evaluate, evaluate_row, key_to_verify,
    machine_id_or_unknown, save_license_key, to_response, trial_state, validated_at,
    verify_license_key, LicenseClaims,
};
use oxide_seeker::search::{SearchResponse, SearchTiming};
use oxide_seeker::service::{supervise, target_exe, ChildState, ServiceStep};
use oxide_seeker::storage::database::LicenseRow;
use oxide_seeker::web::bind_address;
use oxide_seeker::web::handlers::{
    accept_decoded, check_content_type, check_local, check_paths_table, check_size,
    decode_clipboard, extract_hostname, index_progress, is_local_request, reset_progress,
    status_word, strip_data_uri, with_scan_dirs, PeerIp, Progress, SearchResponseBody, UploadForm,
    MAX_UPLOAD_BYTES,
};

fn args(v: &[&str]) -> Vec<String> {
    v.iter().map(|s| s.to_string()).collect()
}

#[test]
fn uploads_are_read_field_by_field() {
    assert!(check_content_type("image/png").is_ok());
    assert!(check_content_type("").is_ok());
    match check_content_type("text/plain") {
        Err(AppError::UnsupportedMediaType { mime }) => assert_eq!(mime, "text/plain"),
        other => panic!("{:?}", other),
    }
    let mut form = UploadForm::new();
    form.on_image(vec![1]).unwrap();
    form.on_image(vec![2, 3]).unwrap();
    form.on_top_k("15");
    assert_eq!(form.finish().unwrap(), (vec![2, 3], Some(15)));
    let mut other = UploadForm::new();
    other.on_top_k("15");
    other.on_top_k("many");
    assert_eq!(other.top_k, None);
    match other.finish() {
        Err(AppError::InvalidRequest(msg)) => assert_eq!(msg, "Missing 'image' field in multipart"),
        other => panic!("{:?}", other),
    }
    assert_eq!(MAX_UPLOAD_BYTES, 64 * 1024 * 1024);
    assert!(check_size(MAX_UPLOAD_BYTES).is_ok());
    match check_size(MAX_UPLOAD_BYTES + 1) {
        Err(AppError::PayloadTooLarge { max_bytes }) => assert_eq!(max_bytes, MAX_UPLOAD_BYTES),
        other => panic!("{:?}", other),
    }
}

#[test]
fn pasted_images_are_decoded() {
    assert_eq!(strip_data_uri("data:image/png;base64, aGk= \n"), "aGk=");
    assert_eq!(strip_data_uri(" aGk="), "aGk=");
    assert_eq!(decode_clipboard("data:image/png;base64,aGk=").unwrap(), b"hi");
    assert_eq!(decode_clipboard("aGk=").unwrap(), b"hi");
    match decode_clipboard("a!b") {
        Err(AppError::InvalidRequest(msg)) => assert!(msg.starts_with("Invalid base64: ")),
        other => panic!("{:?}", other),
    }
    match accept_decoded(Ok(vec![0; MAX_UPLOAD_BYTES + 1])) {
        Err(AppError::PayloadTooLarge { .. }) => {}
        other => panic!("{:?}", other.is_ok()),
    }
}

#[test]
fn progress_is_shown() {
    let p = |processed: u64, total: u64, finished: bool| IndexProgress {
        processed,
        failed: 1,
        excluded: 1,
        total,
        finished,
    };
    assert_eq!(index_progress(&p(0, 10, true), 0), Progress::Everything);
    assert_eq!(index_progress(&p(0, 0, false), 3), Progress::Everything);
    assert_eq!(index_progress(&p(0, 0, false), 0), Progress::Nothing);
    assert_eq!(index_progress(&p(3, 10, false), 0), Progress::Part { done: 5, total: 10 });
    assert_eq!(index_progress(&p(8, 10, false), 0), Progress::Everything);
    assert_eq!(status_word(Progress::Everything), "ready");
    assert_eq!(status_word(Progress::Nothing), "indexing");
    assert_eq!(status_word(Progress::Part { done: 1, total: 2 }), "indexing");
    let mut q = p(3, 10, true);
    reset_progress(&mut q);
    assert_eq!(q, IndexProgress::new(0));
}

#[test]
fn hosts_are_extracted() {
    assert_eq!(extract_hostname("localhost:7788"), "localhost");
    assert_eq!(extract_hostname("127.0.0.1"), "127.0.0.1");
    assert_eq!(extract_hostname("[::1]:7788"), "::1");
    assert_eq!(extract_hostname("[broken:1"), "[broken");
    assert_eq!(extract_hostname(""), "");
}

#[test]
fn local_requests_are_recognised() {
    let far = PeerIp::V4([192, 168, 0, 7]);
    assert!(is_local_request(&PeerIp::V4([127, 9, 9, 9]), None));
    assert!(is_local_request(&PeerIp::V6([0, 0, 0, 0, 0, 0, 0, 1]), None));
    assert!(is_local_request(&PeerIp::V6([0, 0, 0, 0, 0, 0xffff, 0x7f00, 1]), None));
    assert!(!is_local_request(&PeerIp::V6([0, 0, 0, 0, 0, 0xffff, 0xc0a8, 7]), None));
    assert!(!is_local_request(&far, None));
    assert!(is_local_request(&far, Some("LocalHost:7788")));
    assert!(is_local_request(&far, Some("[::1]:80")));
    assert!(!is_local_request(&far, Some("example.org")));
    assert!(check_local(&far, Some("127.0.0.1:1")).is_ok());
    match check_local(&far, None) {
        Err(AppError::InvalidRequest(msg)) => {
            assert_eq!(msg, "Only local connections can change configuration")
        }
        other => panic!("{:?}", other),
    }
}

#[test]
fn directories_are_set_in_the_settings() {
    let text = "[server]\nport = 1\n\n[paths]\ndata_dir = \"d\"\nscan_dirs = [\"old\"]\n";
    let new = with_scan_dirs(text, &args(&["a", "b c"])).unwrap();
    let parsed: toml::Table = toml::from_str(&new).unwrap();
    let dirs = parsed["paths"]["scan_dirs"].as_array().unwrap();
    let dirs: Vec<&str> = dirs.iter().map(|d| d.as_str().unwrap()).collect();
    assert_eq!(dirs, vec!["a", "b c"]);
    assert_eq!(parsed["paths"]["data_dir"].as_str(), Some("d"));
    assert_eq!(parsed["server"]["port"].as_integer(), Some(1));

    let fail = |r: Result<String, AppError>| match r {
        Err(AppError::Other(msg)) => msg,
        other => panic!("{:?}", other),
    };
    assert_eq!(fail(with_scan_dirs("x = 1", &vec![])), "'paths' section not found in config");
    assert_eq!(fail(with_scan_dirs("paths = 1", &vec![])), "'paths' in config is not a table");
    assert!(fail(with_scan_dirs("= broken", &vec![])).starts_with("Failed to parse config: "));
    assert!(check_paths_table(Some(true)).is_ok());
    assert!(check_paths_table(Some(false)).is_err());
    assert!(check_paths_table(None).is_err());
}

#[test]
fn answers_count_their_results() {
    let body = SearchResponseBody::from(SearchResponse {
        results: vec![],
        search_time_ms: 12,
        timing: SearchTiming::default(),
    });
    assert_eq!((body.total, body.search_time_ms), (0, 12));
    assert_eq!(bind_address(&Config::default_for(4)), "0.0.0.0:8080");
}

#[test]
fn the_program_is_started_for_something() {
    assert_eq!(run_mode(&args(&["x", "--worker-mode", "--evaluate"])), RunMode::Worker);
    assert_eq!(run_mode(&args(&["x", "--evaluate"])), RunMode::Evaluate);
    assert_eq!(run_mode(&args(&["x"])), RunMode::Serve { under_service: false });
    assert_eq!(run_mode(&args(&["x", "--service-mode"])), RunMode::Serve { under_service: true });
    assert_eq!(parse_config_arg(&args(&["a", "--config", "c.toml"])), "c.toml");
    assert_eq!(parse_config_arg(&args(&["--config=d.toml", "--config", "c"])), "d.toml");
    assert_eq!(parse_config_arg(&args(&["--config"])), "config.toml");
    assert_eq!(parse_config_arg(&vec![]), "config.toml");
}

#[test]
fn startup_depends_on_the_settings() {
    let mut c = Config::default_for(4);
    let idle = plan_startup(&c, false);
    assert!(!idle.full_index && !idle.watch && !idle.ocr_backfill && idle.rescan_secs.is_none());
    c.paths.scan_dirs = args(&["d"]);
    let busy = plan_startup(&c, true);
    assert!(busy.full_index && busy.watch && busy.ocr_backfill);
    assert_eq!(busy.rescan_secs, Some(1800));
    c.indexer.rescan_interval_secs = 0;
    c.indexer.watch_enabled = false;
    let still = plan_startup(&c, true);
    assert!(still.full_index && !still.watch && still.rescan_secs.is_none());
    let mut p = IndexProgress::new(1);
    assert!(!rescan_begins(&p));
    p.reconcile();
    assert!(rescan_begins(&p));
}

#[test]
fn the_service_keeps_the_program_running() {
    assert_eq!(supervise(true, ChildState::NotStarted), ServiceStep::Start);
    assert_eq!(supervise(true, ChildState::Exited), ServiceStep::Start);
    assert_eq!(supervise(true, ChildState::Running), ServiceStep::Wait);
    assert_eq!(supervise(false, ChildState::Running), ServiceStep::Kill);
    assert_eq!(supervise(false, ChildState::Exited), ServiceStep::End);
    assert_eq!(target_exe("C:\\apps\\svc.exe").unwrap(), "C:\\apps/oxide_seeker.exe");
    assert!(matches!(target_exe(""), Err(AppError::Other(_))));
}

#[test]
fn crashes_are_recorded_in_lines() {
    assert_eq!(crash_record("boom"), "boom\n");
    assert_eq!(crash_record("boom\n"), "boom\n");
    assert_eq!(crash_record(""), "\n");
    assert_eq!(seh_code_name(0xC0000005), "ACCESS_VIOLATION");
    assert_eq!(seh_code_name(0xE0000008), "RAISE_EXCEPTION_8 (likely pdfium internal abort)");
    assert_eq!(seh_code_name(0xE06D7363), "C++ EXCEPTION");
    assert_eq!(seh_code_name(1), "UNKNOWN");
}

fn claims(machine: &str, permanent: bool) -> LicenseClaims {
    LicenseClaims {
        sub: "ACME".to_string(),
        exp: 2_000_000_000,
        iat: 1,
        is_permanent: permanent,
        machine_id: machine.to_string(),
    }
}

fn row(fingerprint: &str, key: Option<&str>) -> LicenseRow {
    LicenseRow {
        id: 1,
        install_fingerprint: fingerprint.to_string(),
        install_started_at: 1000,
        license_key: key.map(|k| k.to_string()),
        last_status: "trial".to_string(),
        last_message: None,
        expires_at: None,
        customer: None,
        validated_at: None,
        updated_at: 0,
    }
}

#[test]
fn licenses_are_for_one_machine() {
    let me = "m1".to_string();
    assert!(accept_claims(claims("m2", true), &me, None).is_none());
    let (c, msg) = accept_claims(claims("m1", true), &me, None).unwrap();
    assert_eq!(msg, "许可有效：ACME（永久）");
    let state = save_license_key(Some((c, msg))).unwrap();
    assert_eq!((state.status.as_str(), state.expires_at), ("permanent", None));
    assert_eq!((state.customer.clone(), state.search_allowed), (Some("ACME".to_string()), true));
    assert_eq!(validated_at(&state, 9), Some(9));
    let (_, dated) = accept_claims(claims("m1", false), &me, Some("2033".to_string())).unwrap();
    assert_eq!(dated, "许可有效：ACME（有效期至 2033）");
    let (c, raw) = accept_claims(claims("m1", false), &me, None).unwrap();
    assert_eq!(raw, "许可有效：ACME（有效期至 2000000000）");
    let state = save_license_key(Some((c, raw))).unwrap();
    assert_eq!((state.status.as_str(), state.expires_at), ("valid", Some(2_000_000_000)));
    match save_license_key(None) {
        Err(AppError::InvalidRequest(msg)) => assert_eq!(msg, "许可无效或已过期"),
        other => panic!("{:?}", other),
    }
}

#[test]
fn the_trial_lasts_thirty_days() {
    let day = 86_400;
    let first = trial_state(1000, 1000);
    assert_eq!((first.trial_days_used, first.trial_days_left), (0, 30));
    assert_eq!(first.message, "试用中：已使用 0 天，剩余 30 天");
    let last = trial_state(1000, 1000 + 30 * day - 1);
    assert_eq!((last.status.as_str(), last.trial_days_used, last.trial_days_left), ("trial", 29, 1));
    assert!(last.search_allowed);
    let over = trial_state(1000, 1000 + 30 * day);
    assert_eq!((over.status.as_str(), over.trial_days_used, over.trial_days_left), ("expired", 30, 0));
    assert_eq!(over.message, "许可失效：试用期已结束，请输入有效许可");
    assert!(!over.search_allowed);
    assert!(trial_state(1000, 5).search_allowed);
    assert_eq!(validated_at(&over, 9), None);
}

#[test]
fn rows_are_evaluated() {
    assert!(matches!(evaluate(&row(" ", None), None, 1000), Err(AppError::Config(_))));
    assert_eq!(key_to_verify(&row("m", Some("  "))), None);
    assert_eq!(key_to_verify(&row("m", Some("k"))), Some("k".to_string()));
    let good = Some((claims("m", true), "ok".to_string()));
    assert_eq!(evaluate(&row("m", Some("k")), good.clone(), 1000).unwrap().status, "permanent");
    assert_eq!(evaluate(&row("m", None), good, 1000).unwrap().status, "trial");
    let trial = evaluate(&row("m", Some("k")), None, 1000).unwrap();
    assert_eq!(trial.status, "trial");
    let shown = describe_state(&trial, Some("never".to_string()), machine_id_or_unknown(None));
    assert_eq!((shown.trial_days_total, shown.expires_at), (30, None));
    assert_eq!(shown.machine_id, "UNKNOWN-MACHINE-ID");
    assert_eq!(to_response(&trial, "m".to_string()).expires_at, None);
}

const PUBLIC_PEM: &str = "-----BEGIN PUBLIC KEY-----
MCowBQYDK2VwAyEA6kpsY+KcUgq+9VB7Ey7F+ZVHdq6+vnuSQh7qaRRG0iw=
-----END PUBLIC KEY-----
";

/// A key for the machine `m1`, signed with the secret that has the byte `seed` only.
fn signed_key(seed: u8, exp: u64, permanent: bool) -> String {
    let mut secret = vec![
        0x30, 0x2e, 0x02, 0x01, 0x00, 0x30, 0x05, 0x06, 0x03, 0x2b, 0x65, 0x70, 0x04, 0x22, 0x04, 0x20,
    ];
    secret.extend([seed; 32]);
    let mut body = serde_json::Map::new();
    body.insert("sub".to_string(), serde_json::Value::from("ACME"));
    body.insert("exp".to_string(), serde_json::Value::from(exp));
    body.insert("iat".to_string(), serde_json::Value::from(1));
    body.insert("is_permanent".to_string(), serde_json::Value::from(permanent));
    body.insert("machine_id".to_string(), serde_json::Value::from("m1"));
    encode(&Header::new(Algorithm::EdDSA), &body, &EncodingKey::from_ed_der(&secret)).unwrap()
}

#[test]
fn keys_are_verified_against_the_public_key() {
    let pem = PUBLIC_PEM.as_bytes().to_vec();
    let me = "m1".to_string();
    let key = signed_key(7, 4_000_000_000, true);
    let (c, msg) = verify_license_key(&key, &pem, &me).unwrap();
    assert_eq!((c.sub.as_str(), c.exp, c.iat, c.is_permanent), ("ACME", 4_000_000_000, 1, true));
    assert_eq!((c.machine_id.as_str(), msg.as_str()), ("m1", "许可有效：ACME（永久）"));

    // An end that no clock reaches.
    for end in [u64::MAX, u64::MAX - 60] {
        let (c, _) = verify_license_key(&signed_key(7, end, true), &pem, &me).unwrap();
        assert_eq!(c.exp as u64, end);
        assert!(verify_license_key(&signed_key(7, end, true), &pem, &"m2".to_string()).is_none());
    }

    // Another machine, another secret, past its end, no key at all, no public key.
    assert!(verify_license_key(&key, &pem, &"m2".to_string()).is_none());
    assert!(verify_license_key(&signed_key(8, 4_000_000_000, true), &pem, &me).is_none());
    assert!(verify_license_key(&signed_key(7, 1_000_000_000, true), &pem, &me).is_none());
    assert!(verify_license_key("not a key", &pem, &me).is_none());
    assert!(verify_license_key(&key, &vec![], &me).is_none());

    let state = enter_license_key(&signed_key(7, 4_000_000_000, false), &pem, &me).unwrap();
    assert_eq!((state.status.as_str(), state.expires_at), ("valid", Some(4_000_000_000)));
    assert!(state.message.starts_with("许可有效：ACME（有效期至 2096-10-0"));
    let shown = to_response(&state, me.clone());
    assert!(shown.expires_at.unwrap().starts_with("2096-10-0"));
    assert!(matches!(enter_license_key("x", &pem, &me), Err(AppError::InvalidRequest(_))));

    let endless = signed_key(7, u64::MAX, false);
    assert!(enter_license_key(&endless, &pem, &me).is_ok());
    assert!(enter_license_key(&endless, &pem, &"m2".to_string()).is_err());
    let bound = evaluate_row(&row("m", Some(&endless)), &pem, &me, 1000).unwrap();
    assert_eq!((bound.status.as_str(), bound.expires_at), ("valid", Some(-1)));
    assert!(to_response(&bound, me.clone()).expires_at.is_some());
    let beyond = signed_key(7, 8_210_266_876_800, false);
    let (_, undated) = verify_license_key(&beyond, &pem, &me).unwrap();
    assert_eq!(undated, "许可有效：ACME（有效期至 8210266876800）");
    let state = enter_license_key(&beyond, &pem, &me).unwrap();
    assert_eq!(to_response(&state, me.clone()).expires_at, None);
    let last = enter_license_key(&signed_key(7, 8_210_266_876_799, false), &pem, &me).unwrap();
    assert!(to_response(&last, me.clone()).expires_at.is_some());

    let held = evaluate_row(&row("m", Some(&key)), &pem, &me, 1000).unwrap();
    assert_eq!((held.status.as_str(), held.search_allowed), ("permanent", true));
    let trial = evaluate_row(&row("m", Some("x")), &pem, &me, 1000).unwrap();
    assert_eq!(trial.status, "trial");
    assert!(matches!(evaluate_row(&row("", None), &pem, &me, 1000), Err(AppError::Config(_))));
}

use seqfetch::{plan_run, resolve_config, ConfigError};

#[test]
fn config_requires_base_data_url() {
    let err = resolve_config(None, None, None, None, 8).unwrap_err();
    assert!(matches!(err, ConfigError::MissingBaseDataUrl));
}

#[test]
fn config_rejects_zero_concurrency() {
    let err = resolve_config(
        Some("http://localhost/data".to_string()),
        None,
        Some(0),
        None,
        8,
    )
    .unwrap_err();
    assert!(matches!(err, ConfigError::ZeroMaxConcurrency));
}

#[test]
fn config_fills_defaults() {
    let config = resolve_config(Some("http://localhost/data".to_string()), None, None, None, 8)
        .unwrap();
    assert_eq!(config.base_data_url, "http://localhost/data");
    assert_eq!(config.log_level, "info");
    assert_eq!(config.max_concurrency, 8);
    assert!(config.keep_cached_data);
}

#[test]
fn config_keeps_explicit_settings() {
    let config = resolve_config(
        Some("http://localhost/data".to_string()),
        Some("debug".to_string()),
        Some(3),
        Some(false),
        8,
    )
    .unwrap();
    assert_eq!(config.log_level, "debug");
    assert_eq!(config.max_concurrency, 3);
    assert!(!config.keep_cached_data);
}

#[test]
fn plan_wipes_and_fetches_when_cache_is_off() {
    let plan = plan_run(false, true);
    assert!(plan.wipe_first);
    assert!(plan.fetch);
}

#[test]
fn plan_reuses_existing_artifact_when_cache_is_on() {
    let plan = plan_run(true, true);
    assert!(!plan.wipe_first);
    assert!(!plan.fetch);

    let plan = plan_run(true, false);
    assert!(!plan.wipe_first);
    assert!(plan.fetch);
}

use condition_eval::telemetry::{
    is_true_word, scope_tags, Level, ScopeFacts, SentryVariables, FLUSH_TIMEOUT_SECONDS,
};
use condition_eval::{add_breadcrumb, create_sentry_layer, init_sentry, shutdown_sentry};

fn some(s: &str) -> Option<String> {
    Some(s.to_string())
}

fn variables(disabled: Option<&str>, dsn: Option<&str>) -> SentryVariables {
    SentryVariables {
        disabled: disabled.map(|s| s.to_string()),
        dsn: dsn.map(|s| s.to_string()),
        environment: None,
        release: None,
        traces_sample_rate: None,
        send_default_pii: None,
    }
}

#[test]
fn the_word_true_in_any_case() {
    for s in ["true", "TRUE", "True", "tRuE"] {
        assert!(is_true_word(s), "{}", s);
    }
    for s in ["", "1", "yes", "false", "true ", " true", "tru", "truee", "trüe"] {
        assert!(!is_true_word(s), "{}", s);
    }
}

#[test]
fn tracking_starts_with_a_data_source_name() {
    let options = init_sentry(variables(None, Some("https://key@host/1")), "1.0");
    let options = options.unwrap();
    assert_eq!(options.dsn, "https://key@host/1");
    assert_eq!(options.environment, "production");
    assert_eq!(options.release, "terminator-mcp-agent@1.0");
    assert_eq!(options.traces_sample_rate, None);
    assert!(options.attach_stacktrace);
    assert!(!options.send_default_pii);
}

#[test]
fn tracking_takes_what_is_configured() {
    let options = init_sentry(
        SentryVariables {
            disabled: some("false"),
            dsn: some("dsn"),
            environment: some("staging"),
            release: some("agent@2.0"),
            traces_sample_rate: some("0.25"),
            send_default_pii: some("TRUE"),
        },
        "1.0",
    )
    .unwrap();
    assert_eq!(options.dsn, "dsn");
    assert_eq!(options.environment, "staging");
    assert_eq!(options.release, "agent@2.0");
    assert_eq!(options.traces_sample_rate, some("0.25"));
    assert!(options.attach_stacktrace);
    assert!(options.send_default_pii);
}

#[test]
fn tracking_stays_off_when_disabled_or_unconfigured() {
    assert!(init_sentry(variables(Some("true"), Some("dsn")), "").is_none());
    assert!(init_sentry(variables(Some("TRUE"), Some("dsn")), "").is_none());
    assert!(init_sentry(variables(None, None), "").is_none());
    assert!(init_sentry(variables(None, Some("")), "").is_none());
    assert!(init_sentry(variables(Some("no"), None), "").is_none());
    assert!(init_sentry(variables(Some("1"), Some("dsn")), "").is_some());
    assert!(init_sentry(variables(Some(""), Some("dsn")), "").is_some());
}

#[test]
fn layer_is_made_when_tracking_runs() {
    assert!(create_sentry_layer(&None, &some("dsn")));
    assert!(create_sentry_layer(&some("off"), &some("dsn")));
    assert!(!create_sentry_layer(&some("True"), &some("dsn")));
    assert!(!create_sentry_layer(&None, &None));
    assert!(!create_sentry_layer(&None, &some("")));
}

#[test]
fn shutdown_flushes_a_bound_client() {
    assert_eq!(shutdown_sentry(true), Some(2));
    assert_eq!(shutdown_sentry(true), Some(FLUSH_TIMEOUT_SECONDS));
    assert_eq!(shutdown_sentry(false), None);
}

#[test]
fn breadcrumb_holds_message_and_category() {
    let crumb = add_breadcrumb("clicked".to_string(), "ui".to_string());
    assert_eq!(crumb.message, some("clicked"));
    assert_eq!(crumb.category, some("ui"));
    assert_eq!(crumb.level, Level::Info);
}

fn tag(key: &str, value: &str) -> (String, String) {
    (key.to_string(), value.to_string())
}

#[test]
fn tags_of_a_bare_machine() {
    let tags = scope_tags(ScopeFacts {
        version: "1.2.3".to_string(),
        hostname: None,
        platform: "linux".to_string(),
        arch: "x86_64".to_string(),
        deployment_type: None,
        vm_name: None,
        resource_group: None,
        vm_purpose: None,
        organization_id: None,
    });
    assert_eq!(
        tags,
        vec![
            tag("server", "terminator-mcp-agent"),
            tag("version", "1.2.3"),
            tag("platform", "linux"),
            tag("arch", "x86_64"),
        ]
    );
}

#[test]
fn tags_of_a_configured_machine() {
    let tags = scope_tags(ScopeFacts {
        version: "1.2.3".to_string(),
        hostname: some("box"),
        platform: "windows".to_string(),
        arch: "aarch64".to_string(),
        deployment_type: some("backend-vm"),
        vm_name: some("vm-1"),
        resource_group: some("rg"),
        vm_purpose: some(""),
        organization_id: some("org-9"),
    });
    assert_eq!(
        tags,
        vec![
            tag("server", "terminator-mcp-agent"),
            tag("version", "1.2.3"),
            tag("hostname", "box"),
            tag("platform", "windows"),
            tag("arch", "aarch64"),
            tag("deployment_type", "backend-vm"),
            tag("vm_name", "vm-1"),
            tag("resource_group", "rg"),
            tag("vm_purpose", ""),
            tag("organization_id", "org-9"),
        ]
    );
}

#[test]
fn empty_organization_gets_no_tag() {
    let tags = scope_tags(ScopeFacts {
        version: String::new(),
        hostname: None,
        platform: String::new(),
        arch: String::new(),
        deployment_type: None,
        vm_name: None,
        resource_group: None,
        vm_purpose: None,
        organization_id: some(""),
    });
    assert_eq!(tags.len(), 4);
    assert!(tags.iter().all(|(key, _)| key != "organization_id"));
}

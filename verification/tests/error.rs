use harmont_cli::error::{ErrorCategory, HmError, EXIT_API};

/// The rendered string is part of the user-facing contract, checked
/// byte for byte.
#[test]
fn pipeline_manual_disabled_renders_section5_shape() {
    let s = HmError::PipelineManualDisabled.to_text();
    assert_eq!(
        s,
        "error: manual builds are disabled for this pipeline\n  \u{2192} ask the pipeline owner to set allow_manual=True\n\nhm run --help   for more"
    );
}

#[test]
fn pipeline_manual_disabled_is_api_category() {
    assert_eq!(
        HmError::PipelineManualDisabled.category(),
        ErrorCategory::Api
    );
    assert_eq!(HmError::PipelineManualDisabled.exit_code(), EXIT_API);
}

#[test]
fn category_exit_codes() {
    assert_eq!(ErrorCategory::BuildFailed.exit_code(), 1);
    assert_eq!(ErrorCategory::Usage.exit_code(), 2);
    assert_eq!(ErrorCategory::Auth.exit_code(), 3);
    assert_eq!(ErrorCategory::Network.exit_code(), 4);
    assert_eq!(ErrorCategory::Api.exit_code(), 5);
    assert_eq!(ErrorCategory::PluginLoad.exit_code(), 5);
    assert_eq!(ErrorCategory::PluginRuntime.exit_code(), 6);
    assert_eq!(ErrorCategory::PipelineInvalid.exit_code(), 7);
}

#[test]
fn api_401_and_403_are_auth_errors() {
    let e = HmError::Api { status: 401, message: "nope".into() };
    assert_eq!(e.category(), ErrorCategory::Auth);
    assert_eq!(e.exit_code(), 3);
    let e = HmError::Api { status: 403, message: "nope".into() };
    assert_eq!(e.category(), ErrorCategory::Auth);
    let e = HmError::Api { status: 500, message: "boom".into() };
    assert_eq!(e.category(), ErrorCategory::Api);
    assert_eq!(e.to_text(), "API error (HTTP 500): boom");
}

#[test]
fn each_variant_has_its_category() {
    assert_eq!(HmError::NotAuthenticated.exit_code(), 3);
    assert_eq!(HmError::NoOrganization.exit_code(), 2);
    assert_eq!(HmError::ArchiveTooLarge { max_mb: 100 }.exit_code(), 2);
    assert_eq!(HmError::PipelineNotFound { slug: "x".into() }.exit_code(), 5);
    assert_eq!(HmError::Config("c".into()).exit_code(), 2);
    assert_eq!(HmError::Docker("d".into()).exit_code(), 4);
    assert_eq!(HmError::PipelineRender("r".into()).exit_code(), 2);
    assert_eq!(HmError::LocalScheduling("l".into()).exit_code(), 5);
    assert_eq!(
        HmError::PluginManifest { name: "p".into(), expected_api: 1, found_api: 9999 }.exit_code(),
        5
    );
    assert_eq!(
        HmError::PluginPanic { name: "p".into(), capability: "c".into(), message: "m".into() }.exit_code(),
        6
    );
    assert_eq!(
        HmError::PluginTimeout { name: "p".into(), capability: "c".into(), after_ms: 5 }.exit_code(),
        6
    );
    assert_eq!(
        HmError::PluginConflict { verb: "v".into(), plugin_a: "a".into(), plugin_b: "b".into() }.exit_code(),
        5
    );
    assert_eq!(
        HmError::UnknownRunner { step_key: "s".into(), runner: "r".into(), available: vec![] }.exit_code(),
        7
    );
    assert_eq!(HmError::NoDefaultExecutor.exit_code(), 7);
    assert_eq!(
        HmError::UnknownVerb { verb: "v".into(), available: vec![] }.exit_code(),
        2
    );
    assert_eq!(HmError::Other(anyhow::Error::msg("x")).exit_code(), 1);
    assert_eq!(
        HmError::PluginLoad {
            name: "p".into(),
            path: std::path::PathBuf::from("/x.wasm"),
            reason: "r".into(),
            doc_url: "https://example.invalid"
        }
        .exit_code(),
        5
    );
    assert_eq!(
        HmError::PluginMissingHostFn {
            name: "p".into(),
            fn_name: "f".into(),
            min_hm_version: semver::Version::new(1, 2, 3)
        }
        .exit_code(),
        5
    );
}

#[test]
fn messages_render_their_fields() {
    assert_eq!(HmError::NotAuthenticated.to_text(), "not authenticated\n  \u{2192} run `hm login`");
    assert_eq!(
        HmError::ArchiveTooLarge { max_mb: 250 }.to_text(),
        "source archive exceeds the 250 MB limit\n  \u{2192} trim the source tree or add ignores in .harmontignore"
    );
    assert_eq!(
        HmError::PluginManifest { name: "p".into(), expected_api: 1, found_api: 9999 }.to_text(),
        "plugin 'p': API version mismatch (plugin=9999, host=1)"
    );
    assert_eq!(
        HmError::PluginTimeout { name: "p".into(), capability: "hm_run".into(), after_ms: 1500 }.to_text(),
        "plugin 'p' timed out after 1500ms during 'hm_run'"
    );
    assert_eq!(
        HmError::PluginConflict { verb: "runner:noop".into(), plugin_a: "a".into(), plugin_b: "b".into() }.to_text(),
        "plugin conflict: both 'a' and 'b' claim 'runner:noop'"
    );
    assert_eq!(
        HmError::UnknownRunner {
            step_key: "build".into(),
            runner: "k8s".into(),
            available: vec!["docker".into(), "noop".into()]
        }
        .to_text(),
        "step 'build' requested runner 'k8s', but no plugin provides it (available: [\"docker\", \"noop\"])"
    );
    assert_eq!(
        HmError::UnknownVerb { verb: "deploy".into(), available: vec!["cloud".into()] }.to_text(),
        "unknown command 'deploy'\n  available: [\"cloud\"]\n  fix: `hm plugin install <ref>` to add a plugin that provides this command"
    );
    assert_eq!(
        HmError::PluginMissingHostFn {
            name: "p".into(),
            fn_name: "hm_kv_get".into(),
            min_hm_version: semver::Version::new(0, 4, 1)
        }
        .to_text(),
        "plugin 'p': required host fn 'hm_kv_get' is unavailable (this hm build is too old; needs >= 0.4.1)"
    );
    assert_eq!(
        HmError::PluginLoad {
            name: "p".into(),
            path: std::path::PathBuf::from("/plugins/p.wasm"),
            reason: "bad magic".into(),
            doc_url: "https://example.invalid"
        }
        .to_text(),
        "plugin 'p' failed to load from /plugins/p.wasm: bad magic"
    );
    assert_eq!(HmError::Other(anyhow::Error::msg("plain failure")).to_text(), "plain failure");
    assert_eq!(
        HmError::Docker("daemon down".into()).to_text(),
        "docker error: daemon down\n  \u{2192} check that the Docker daemon is running (`docker version`)"
    );
    assert_eq!(
        HmError::PipelineNotFound { slug: "ci".into() }.to_text(),
        "pipeline not found: ci\n  \u{2192} list available pipelines with `hm pipeline list`"
    );
}

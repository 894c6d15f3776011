use harmont_cli::builtin::plugin::{
    capability_summary, find_manifest, no_such_plugin_message, no_plugins_help, plugin_file_name,
    plugin_listing, plugin_table,
};
use harmont_cli::builtin::version::version_report;
use harmont_cli::commands::run::local::{effective_parallelism, select_slug, shows_banner, SlugError};
use harmont_cli::commands::run::render::{
    check_rendered, python_failure, python_path, slugs_of, utf8_valid, PipelineMeta,
};
use harmont_cli::error::{failure_exit_code, HmError, EXIT_AUTH, EXIT_BUILD_FAILED, EXIT_USAGE};
use harmont_cli::fs_util::{mode_differs, temp_suffix};
use harmont_cli::output::color_enabled;
use harmont_cli::plugin::pool::InstancePool;
use harmont_cli::protocol::{
    Capability, Env, LifecycleHookCapability, OutputFormatterCapability, PluginManifest,
    StepExecutorCapability, SubcommandCapability,
};
use harmont_cli::text::{decimal_string, join_strings, pad_end_string, pad_start_string, str_lt};

#[test]
fn env_keeps_names_sorted_and_last_write_wins() {
    let mut e = Env::new();
    e.insert("b".into(), "1".into());
    e.insert("a".into(), "2".into());
    e.insert("c".into(), "3".into());
    e.insert("b".into(), "4".into());
    assert_eq!(
        e.entries(),
        vec![
            ("a".to_string(), "2".to_string()),
            ("b".to_string(), "4".to_string()),
            ("c".to_string(), "3".to_string())
        ]
    );
    assert_eq!(e.get("b").map(|s| s.as_str()), Some("4"));
    assert_eq!(e.get("z"), None);
}

#[test]
fn env_extend_overrides() {
    let mut base = Env::new();
    base.insert("PATH".into(), "/bin".into());
    base.insert("HOME".into(), "/root".into());
    let mut over = Env::new();
    over.insert("HOME".into(), "/home/u".into());
    over.insert("LANG".into(), "C".into());
    base.extend(&over);
    assert_eq!(
        base.entries(),
        vec![
            ("HOME".to_string(), "/home/u".to_string()),
            ("LANG".to_string(), "C".to_string()),
            ("PATH".to_string(), "/bin".to_string())
        ]
    );
    let copy = base.clone();
    assert_eq!(copy.entries(), base.entries());
}

#[test]
fn string_order_is_code_point_order() {
    assert!(str_lt("a", "b"));
    assert!(str_lt("a", "ab"));
    assert!(!str_lt("ab", "a"));
    assert!(!str_lt("x", "x"));
    assert!(str_lt("Z", "a"));
    assert!(str_lt("e", "\u{e9}"));
}

#[test]
fn decimal_and_padding() {
    assert_eq!(decimal_string(0), "0");
    assert_eq!(decimal_string(7), "7");
    assert_eq!(decimal_string(1024), "1024");
    assert_eq!(decimal_string(u64::MAX), u64::MAX.to_string());
    assert_eq!(pad_end_string("ab", 5), "ab   ");
    assert_eq!(pad_start_string("ab", 5), "   ab");
    assert_eq!(pad_end_string("abcdef", 3), "abcdef");
    assert_eq!(join_strings(&vec!["a".into(), "b".into(), "c".into()], ", "), "a, b, c");
    assert_eq!(join_strings(&vec![], ", "), "");
}

fn manifest(name: &str, version: &str, caps: Vec<Capability>) -> PluginManifest {
    PluginManifest {
        name: name.into(),
        version: version.into(),
        api_version: 1,
        capabilities: caps,
        allowed_hosts: vec![],
    }
}

#[test]
fn capability_summaries() {
    assert_eq!(
        capability_summary(&Capability::Subcommand(SubcommandCapability { verb: "cloud".into() })),
        "subcmd:cloud"
    );
    assert_eq!(
        capability_summary(&Capability::StepExecutor(StepExecutorCapability { runner: "docker".into(), default: true })),
        "runner:docker(*)"
    );
    assert_eq!(
        capability_summary(&Capability::StepExecutor(StepExecutorCapability { runner: "noop".into(), default: false })),
        "runner:noop"
    );
    assert_eq!(capability_summary(&Capability::LifecycleHook(LifecycleHookCapability {})), "hook");
    assert_eq!(
        capability_summary(&Capability::OutputFormatter(OutputFormatterCapability { name: "json".into() })),
        "format:json"
    );
}

#[test]
fn plugin_listing_table() {
    let ms = vec![
        manifest(
            "docker",
            "0.1.0",
            vec![
                Capability::StepExecutor(StepExecutorCapability { runner: "docker".into(), default: true }),
                Capability::LifecycleHook(LifecycleHookCapability {}),
            ],
        ),
        manifest("cloud", "1.2.3", vec![Capability::Subcommand(SubcommandCapability { verb: "cloud".into() })]),
    ];
    let lines = plugin_table(&ms);
    assert_eq!(lines.len(), 3);
    assert_eq!(lines[0], format!("{:<28} {:>10}  capabilities", "name", "version"));
    assert_eq!(lines[1], format!("{:<28} {:>10}  {}", "docker", "0.1.0", "runner:docker(*), hook"));
    assert_eq!(lines[2], format!("{:<28} {:>10}  {}", "cloud", "1.2.3", "subcmd:cloud"));
    assert_eq!(find_manifest(&ms, "cloud"), Some(1));
    assert_eq!(find_manifest(&ms, "nope"), None);
    assert_eq!(no_such_plugin_message("nope"), "no plugin named 'nope' is installed");
    assert_eq!(plugin_file_name("my_plugin"), "my_plugin.wasm");
}

#[test]
fn version_lines() {
    let lines = version_report("0.3.0", 2, 4);
    assert_eq!(lines, vec!["hm 0.3.0", "plugin api version: 2", "plugins loaded: 4"]);
}

#[test]
fn slug_selection() {
    assert_eq!(select_slug(vec!["ci".into()]).unwrap(), "ci");
    let e = select_slug(vec![]).unwrap_err();
    assert!(matches!(e, SlugError::NoPipelines));
    assert_eq!(
        e.message(),
        "no pipelines declared in this repo\n  hint: define one with `@hm.pipeline(\"slug\")` in `.harmont/pipeline.py`"
    );
    let e = select_slug(vec!["ci".into(), "nightly".into()]).unwrap_err();
    assert_eq!(
        e.message(),
        "this repo declares pipelines: ci, nightly\n  \u{2192} pass one as the first argument"
    );
}

#[test]
fn run_settings() {
    assert_eq!(effective_parallelism(Some(2), Some(16)), 2);
    assert_eq!(effective_parallelism(None, Some(16)), 16);
    assert_eq!(effective_parallelism(None, None), 4);
    assert!(shows_banner("human"));
    assert!(!shows_banner("json"));
}

#[test]
fn render_helpers() {
    assert_eq!(python_path("/opt/cidsl/py", "/repo/.harmont"), "/opt/cidsl/py:/repo/.harmont");
    let e = python_failure("exit status: 2", "boom");
    assert_eq!(e.to_text(), "pipeline render error: python3 exited exit status: 2: boom");
    assert_eq!(e.exit_code(), 2);
    assert!(matches!(e, HmError::PipelineRender(_)));
    let slugs = slugs_of(vec![
        PipelineMeta { slug: "a".into(), name: "A".into() },
        PipelineMeta { slug: "b".into(), name: "B".into() },
    ]);
    assert_eq!(slugs, vec!["a", "b"]);
}

#[test]
fn fs_util_decisions() {
    assert_eq!(temp_suffix(4242), ".tmp.4242");
    assert!(mode_differs(0o40755, 0o700));
    assert!(!mode_differs(0o40700, 0o700));
    assert!(!mode_differs(0o700, 0o700));
}

#[test]
fn color_rule() {
    assert!(color_enabled(false, false, true));
    assert!(!color_enabled(true, false, true));
    assert!(!color_enabled(false, true, true));
    assert!(!color_enabled(false, false, false));
}

#[test]
fn instance_pool_is_bounded() {
    let mut p: InstancePool<u32> = InstancePool::new(0);
    assert_eq!(p.max_instances(), 1);
    assert_eq!(p.take(), None);
    p.put_back(1);
    p.put_back(2); // pool full: dropped
    assert_eq!(p.idle_count(), 1);
    assert_eq!(p.take(), Some(1));
    assert_eq!(p.idle_count(), 0);

    let mut q = InstancePool::with_first(3, 10u32);
    assert_eq!(q.max_instances(), 3);
    let a = q.take().unwrap();
    assert_eq!(a, 10);
    q.put_back(a);
    q.put_back(11);
    q.put_back(12);
    q.put_back(13);
    assert_eq!(q.idle_count(), 3);
    assert_eq!(q.take(), Some(12));
}

#[test]
fn utf8_check_agrees_with_std() {
    let cases: Vec<Vec<u8>> = vec![
        b"{\"version\": \"0\"}".to_vec(),
        vec![],
        vec![0xE2, 0x82, 0xAC],
        vec![0xF0, 0x9F, 0x98, 0x80],
        vec![0xFF],
        vec![0xC0, 0x80],
        vec![0xED, 0xA0, 0x80],
        vec![0xE2, 0x82],
        vec![0xF4, 0x90, 0x80, 0x80],
        vec![b'a', 0x80],
    ];
    for c in &cases {
        assert_eq!(utf8_valid(c), std::str::from_utf8(c).is_ok(), "{c:?}");
    }
}

#[test]
fn rendered_output_must_be_utf8() {
    assert!(check_rendered(b"{}").is_ok());
    match check_rendered(&[b'{', 0xFF, b'}']) {
        Err(HmError::PipelineRender(m)) => assert_eq!(m, "python3 output is not valid UTF-8"),
        other => panic!("unexpected {other:?}"),
    }
}

#[test]
fn failure_exit_codes() {
    assert_eq!(failure_exit_code(None), EXIT_BUILD_FAILED);
    assert_eq!(failure_exit_code(Some(&HmError::NotAuthenticated)), EXIT_AUTH);
    assert_eq!(failure_exit_code(Some(&HmError::Config("x".into()))), EXIT_USAGE);
}

#[test]
fn empty_plugin_listing_prints_help() {
    let dirs = vec!["/home/u/.hm/plugins".to_string(), ".harmont/plugins".to_string()];
    let lines = no_plugins_help(&dirs);
    assert_eq!(
        lines,
        vec![
            "No plugins installed.",
            "",
            "Plugins live in:",
            "  /home/u/.hm/plugins",
            "  .harmont/plugins",
            "",
            "Install one with `hm plugin install <path-or-url>`.",
        ]
    );
    assert_eq!(plugin_listing(&Vec::new(), &dirs), lines);
    let ms = vec![manifest("docker", "0.1.0", vec![])];
    assert_eq!(plugin_listing(&ms, &dirs), plugin_table(&ms));
}

/// `hm plugin list` with no plugin installed prints the help.
#[test]
fn plugin_list_with_no_plugins_prints_help() {
    let dirs = vec!["/tmp/home/.config/hm/plugins".to_string()];
    let out = plugin_listing(&Vec::new(), &dirs).join("\n");
    assert!(out.contains("No plugins installed."));
}

/// `hm version` prints the version.
#[test]
fn version_prints_version() {
    let out = version_report("0.1.0", 1, 0).join("\n");
    assert!(out.contains("hm "));
}

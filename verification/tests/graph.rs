use harmont_cli::orchestrator::graph::{Graph, GraphError};
use harmont_cli::protocol::{CommandStep, Env, Pipeline, Step, WaitStep};
use serde_json::Value;

fn opt_string(v: &Value, field: &str) -> Option<String> {
    v.get(field).and_then(|x| x.as_str()).map(|s| s.to_string())
}

fn env_of(v: &Value, field: &str) -> Option<Env> {
    v.get(field).and_then(|x| x.as_object()).map(|obj| {
        let mut e = Env::new();
        for (k, val) in obj {
            e.insert(k.clone(), val.as_str().unwrap_or_default().to_string());
        }
        e
    })
}

/// Decode a rendered pipeline from its JSON wire form.
fn decode_wire(bytes: &[u8]) -> Pipeline {
    let v: Value = serde_json::from_slice(bytes).unwrap();
    let mut steps = Vec::new();
    for s in v["steps"].as_array().unwrap() {
        match s["type"].as_str().unwrap() {
            "command" => steps.push(Step::Command(Box::new(CommandStep {
                key: s["key"].as_str().unwrap().to_string(),
                cmd: s["cmd"].as_str().unwrap().to_string(),
                label: opt_string(s, "label"),
                builds_in: opt_string(s, "builds_in"),
                image: opt_string(s, "image"),
                cwd: opt_string(s, "cwd"),
                runner: opt_string(s, "runner"),
                runner_args: s.get("runner_args").map(|v| v.to_string()),
                env: env_of(s, "env"),
            }))),
            "wait" => steps.push(Step::Wait(WaitStep {})),
            other => panic!("unknown step type {other}"),
        }
    }
    Pipeline {
        version: v["version"].as_str().unwrap().to_string(),
        steps,
        env: env_of(&v, "env"),
        default_image: opt_string(&v, "default_image"),
    }
}

fn err_text(e: &GraphError) -> String {
    e.message()
}

#[test]
fn chain_detection() {
    let json = br#"{
      "version":"0",
      "default_image":"ubuntu:24.04",
      "steps":[
        {"type":"command","key":"a","cmd":"echo a"},
        {"type":"command","key":"b","cmd":"echo b","builds_in":"a"},
        {"type":"command","key":"c","cmd":"echo c","builds_in":"b"}
      ]
    }"#;
    let p = decode_wire(json);
    let g = Graph::build(&p).unwrap();
    assert!(!g.is_chain_step(0)); // root, no parent
    assert!(g.is_chain_step(1));
    assert!(g.is_chain_step(2));
}

#[test]
fn fork_breaks_chain() {
    let json = br#"{
      "version":"0",
      "default_image":"ubuntu:24.04",
      "steps":[
        {"type":"command","key":"a","cmd":"echo a"},
        {"type":"command","key":"b","cmd":"echo b","builds_in":"a"},
        {"type":"command","key":"c","cmd":"echo c","builds_in":"a"}
      ]
    }"#;
    let p = decode_wire(json);
    let g = Graph::build(&p).unwrap();
    assert!(!g.is_chain_step(1)); // sibling exists, must commit a then run separately
    assert!(!g.is_chain_step(2));
}

#[test]
fn wait_inserts_implicit_deps() {
    let json = br#"{
      "version":"0",
      "steps":[
        {"type":"command","key":"a","cmd":"echo a"},
        {"type":"command","key":"b","cmd":"echo b"},
        {"type":"wait"},
        {"type":"command","key":"c","cmd":"echo c"}
      ]
    }"#;
    let p = decode_wire(json);
    let g = Graph::build(&p).unwrap();
    // c (index 2 since the wait is dropped) should depend on a (0) and b (1).
    let c_idx = g.nodes.iter().position(|n| n.step.key == "c").unwrap();
    let a_idx = g.nodes.iter().position(|n| n.step.key == "a").unwrap();
    let b_idx = g.nodes.iter().position(|n| n.step.key == "b").unwrap();
    assert!(g.nodes[c_idx].depends_on.contains(&a_idx));
    assert!(g.nodes[c_idx].depends_on.contains(&b_idx));
}

#[test]
fn rejects_unknown_builds_in() {
    let json = br#"{
      "version":"0",
      "steps":[
        {"type":"command","key":"b","cmd":"echo b","builds_in":"missing"}
      ]
    }"#;
    let p = decode_wire(json);
    let err = Graph::build(&p).unwrap_err();
    assert!(err_text(&err).contains("missing") || err_text(&err).contains("unknown"));
}

#[test]
fn chains_partition_includes_every_node_once() {
    // Pipeline:
    //   a (root) -> b (chain) -> c (chain)
    //            -> d (fork)
    //   e (root, independent)
    let json = br#"{
      "version":"0",
      "default_image":"ubuntu:24.04",
      "steps":[
        {"type":"command","key":"a","cmd":"echo a"},
        {"type":"command","key":"b","cmd":"echo b","builds_in":"a"},
        {"type":"command","key":"c","cmd":"echo c","builds_in":"b"},
        {"type":"command","key":"d","cmd":"echo d","builds_in":"a"},
        {"type":"command","key":"e","cmd":"echo e"}
      ]
    }"#;
    let p = decode_wire(json);
    let g = Graph::build(&p).unwrap();
    let idx = |k: &str| g.nodes.iter().position(|n| n.step.key == k).unwrap();

    // 'a' has two builds_in children, so neither b nor d is a chain
    // step relative to a. But b -> c is a single-child chain.
    let chains = g.chains();
    let mut all_nodes: Vec<usize> = chains.iter().flatten().copied().collect();
    all_nodes.sort_unstable();
    assert_eq!(
        all_nodes,
        vec![idx("a"), idx("b"), idx("c"), idx("d"), idx("e")]
    );

    // The chain containing 'b' must also contain 'c' in that order.
    let bc_chain = chains
        .iter()
        .find(|ch| ch.contains(&idx("b")))
        .expect("b must be in some chain");
    assert_eq!(bc_chain, &vec![idx("b"), idx("c")]);

    // Every other chain is length-1.
    for ch in &chains {
        if ch != bc_chain {
            assert_eq!(ch.len(), 1, "non-bc chain not singleton: {ch:?}");
        }
    }
}

#[test]
fn chain_deps_aggregates_cross_chain_edges() {
    // Chains: [a], [b,c], [d], [e]
    // chain_deps: [a] none, [b,c] {[a]}, [d] {[a]}, [e] none
    let json = br#"{
      "version":"0",
      "steps":[
        {"type":"command","key":"a","cmd":"echo a"},
        {"type":"command","key":"b","cmd":"echo b","builds_in":"a"},
        {"type":"command","key":"c","cmd":"echo c","builds_in":"b"},
        {"type":"command","key":"d","cmd":"echo d","builds_in":"a"},
        {"type":"command","key":"e","cmd":"echo e"}
      ]
    }"#;
    let p = decode_wire(json);
    let g = Graph::build(&p).unwrap();
    let chains = g.chains();
    let deps = g.chain_deps(&chains);

    let find_chain = |key: &str| -> usize {
        let idx = g.nodes.iter().position(|n| n.step.key == key).unwrap();
        chains.iter().position(|ch| ch.contains(&idx)).unwrap()
    };
    let a_ci = find_chain("a");
    let bc_ci = find_chain("b");
    let d_ci = find_chain("d");
    let e_ci = find_chain("e");

    assert!(
        deps[a_ci].is_empty(),
        "chain a has no deps: {:?}",
        deps[a_ci]
    );
    assert_eq!(deps[bc_ci], vec![a_ci]);
    assert_eq!(deps[d_ci], vec![a_ci]);
    assert!(deps[e_ci].is_empty());
}

#[test]
fn chain_deps_subsumes_wait_barriers() {
    let json = br#"{
      "version":"0",
      "steps":[
        {"type":"command","key":"a","cmd":"echo a"},
        {"type":"command","key":"b","cmd":"echo b"},
        {"type":"wait"},
        {"type":"command","key":"c","cmd":"echo c"}
      ]
    }"#;
    let p = decode_wire(json);
    let g = Graph::build(&p).unwrap();
    let chains = g.chains();
    let deps = g.chain_deps(&chains);
    let find_chain = |key: &str| -> usize {
        let idx = g.nodes.iter().position(|n| n.step.key == key).unwrap();
        chains.iter().position(|ch| ch.contains(&idx)).unwrap()
    };
    let a_ci = find_chain("a");
    let b_ci = find_chain("b");
    let c_ci = find_chain("c");
    let mut c_deps = deps[c_ci].clone();
    c_deps.sort_unstable();
    let mut want = vec![a_ci, b_ci];
    want.sort_unstable();
    assert_eq!(c_deps, want);
}

#[test]
fn chains_root_is_never_a_chain_step() {
    let json = br#"{
      "version":"0",
      "steps":[
        {"type":"command","key":"a","cmd":"echo a"},
        {"type":"command","key":"b","cmd":"echo b","builds_in":"a"}
      ]
    }"#;
    let p = decode_wire(json);
    let g = Graph::build(&p).unwrap();
    for chain in g.chains() {
        let root = chain[0];
        assert!(!g.is_chain_step(root), "chain root {root} is a chain step");
        for &step in &chain[1..] {
            assert!(g.is_chain_step(step), "non-root {step} is not a chain step");
        }
    }
}

// ---- further cases -------------------------------------------------------

#[test]
fn unknown_builds_in_message_names_both_steps() {
    let p = decode_wire(br#"{"version":"0","steps":[
        {"type":"command","key":"a","cmd":"x"},
        {"type":"command","key":"b","cmd":"y","builds_in":"missing"}]}"#);
    let err = Graph::build(&p).unwrap_err();
    assert_eq!(
        err.message(),
        "step 'b' builds_in references unknown step 'missing'"
    );
}

#[test]
fn first_unknown_builds_in_is_reported() {
    let p = decode_wire(br#"{"version":"0","steps":[
        {"type":"command","key":"a","cmd":"x","builds_in":"nope1"},
        {"type":"command","key":"b","cmd":"y","builds_in":"nope2"}]}"#);
    match Graph::build(&p).unwrap_err() {
        GraphError::UnknownBuildsIn { step, parent } => {
            assert_eq!(step, "a");
            assert_eq!(parent, "nope1");
        }
        other => panic!("unexpected {other:?}"),
    }
}

#[test]
fn builds_in_cycle_is_rejected_with_back_edge() {
    let p = decode_wire(br#"{"version":"0","steps":[
        {"type":"command","key":"a","cmd":"x","builds_in":"b"},
        {"type":"command","key":"b","cmd":"y","builds_in":"a"}]}"#);
    let err = Graph::build(&p).unwrap_err();
    match &err {
        GraphError::Cycle { target, via } => {
            assert_eq!(target, "a");
            assert_eq!(via.as_deref(), Some("b"));
        }
        other => panic!("unexpected {other:?}"),
    }
    assert_eq!(err.message(), "cycle: 'a' is reachable from itself via 'b'");
}

#[test]
fn self_cycle_is_rejected() {
    let p = decode_wire(br#"{"version":"0","steps":[
        {"type":"command","key":"a","cmd":"x","builds_in":"a"}]}"#);
    let err = Graph::build(&p).unwrap_err();
    assert_eq!(err.message(), "cycle: 'a' is reachable from itself via 'a'");
}

#[test]
fn cycle_through_wait_barrier_is_rejected() {
    // b waits for a; a builds in b.
    let p = decode_wire(br#"{"version":"0","steps":[
        {"type":"command","key":"a","cmd":"x","builds_in":"b"},
        {"type":"wait"},
        {"type":"command","key":"b","cmd":"y"}]}"#);
    let err = Graph::build(&p).unwrap_err();
    assert_eq!(err.message(), "cycle: 'a' is reachable from itself via 'b'");
}

#[test]
fn default_image_applies_to_roots_without_image() {
    let p = decode_wire(br#"{"version":"0","default_image":"ubuntu:24.04","steps":[
        {"type":"command","key":"a","cmd":"x"},
        {"type":"command","key":"b","cmd":"y","image":"alpine"},
        {"type":"command","key":"c","cmd":"z","builds_in":"a"}]}"#);
    let g = Graph::build(&p).unwrap();
    assert_eq!(g.nodes[0].step.image.as_deref(), Some("ubuntu:24.04"));
    assert_eq!(g.nodes[1].step.image.as_deref(), Some("alpine"));
    assert_eq!(g.nodes[2].step.image, None);
    assert_eq!(g.default_image.as_deref(), Some("ubuntu:24.04"));
}

#[test]
fn step_env_overrides_pipeline_env() {
    let p = decode_wire(br#"{"version":"0","env":{"A":"1","B":"2"},"steps":[
        {"type":"command","key":"a","cmd":"x","env":{"B":"3","C":"4"}},
        {"type":"command","key":"b","cmd":"y"}]}"#);
    let g = Graph::build(&p).unwrap();
    let e0: Vec<(String, String)> = g.nodes[0].env.entries();
    assert_eq!(
        e0,
        vec![
            ("A".to_string(), "1".to_string()),
            ("B".to_string(), "3".to_string()),
            ("C".to_string(), "4".to_string())
        ]
    );
    let e1 = g.nodes[1].env.entries();
    assert_eq!(e1.len(), 2);
    assert_eq!(g.nodes[1].env.get("B").map(|s| s.as_str()), Some("2"));
}

#[test]
fn builds_in_children_and_depends_on_are_recorded() {
    let p = decode_wire(br#"{"version":"0","steps":[
        {"type":"command","key":"a","cmd":"x"},
        {"type":"command","key":"b","cmd":"y","builds_in":"a"},
        {"type":"wait"},
        {"type":"command","key":"c","cmd":"z","builds_in":"a"}]}"#);
    let g = Graph::build(&p).unwrap();
    assert_eq!(g.nodes[0].builds_in_children, vec![1, 2]);
    assert_eq!(g.nodes[1].builds_in, Some(0));
    // c: builds_in parent first, then wait targets a (already present) and b.
    assert_eq!(g.nodes[2].depends_on, vec![0, 1]);
    assert!(g.nodes[0].depends_on.is_empty());
}

#[test]
fn duplicate_keys_resolve_to_the_last_step() {
    let p = decode_wire(br#"{"version":"0","steps":[
        {"type":"command","key":"a","cmd":"first"},
        {"type":"command","key":"a","cmd":"second"},
        {"type":"command","key":"b","cmd":"y","builds_in":"a"}]}"#);
    let g = Graph::build(&p).unwrap();
    assert_eq!(g.nodes[2].builds_in, Some(1));
}

#[test]
fn chains_follow_single_child_lineage() {
    let p = decode_wire(br#"{"version":"0","steps":[
        {"type":"command","key":"a","cmd":"x"},
        {"type":"command","key":"b","cmd":"y","builds_in":"a"},
        {"type":"command","key":"c","cmd":"z","builds_in":"b"},
        {"type":"command","key":"d","cmd":"w"}]}"#);
    let g = Graph::build(&p).unwrap();
    assert_eq!(g.chains(), vec![vec![0, 1, 2], vec![3]]);
}

#[test]
fn chain_deps_mark_nodes_outside_every_chain() {
    let p = decode_wire(br#"{"version":"0","steps":[
        {"type":"command","key":"a","cmd":"x"},
        {"type":"command","key":"b","cmd":"y","builds_in":"a"}]}"#);
    let g = Graph::build(&p).unwrap();
    // A partition that leaves node 0 out: its chain index is usize::MAX.
    let deps = g.chain_deps(&vec![vec![1]]);
    assert_eq!(deps, vec![vec![usize::MAX]]);
}

#[test]
fn cycle_message_without_back_edge_source() {
    let e = GraphError::Cycle { target: "x".to_string(), via: None };
    assert_eq!(e.message(), "cycle through step 'x'");
    let e = GraphError::UnknownWaitDep { step: "s".to_string(), dep: "d".to_string() };
    assert_eq!(e.message(), "step 's' has wait-barrier dep on unknown step 'd'");
}

#[test]
fn runner_and_its_arguments_are_carried_to_the_node() {
    let p = decode_wire(br#"{"version":"0","steps":[
        {"type":"command","key":"a","cmd":"x","runner":"k8s","runner_args":{"cpu":"2"}}]}"#);
    let g = Graph::build(&p).unwrap();
    assert_eq!(g.nodes[0].step.runner.as_deref(), Some("k8s"));
    assert_eq!(g.nodes[0].step.runner_args.as_deref(), Some(r#"{"cpu":"2"}"#));
}

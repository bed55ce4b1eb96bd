use ce_render::placement::{
    assign, candidates, distinct, rank, select, to_candidate, verifier_for, AtlasEntry, Candidate,
};

fn cand(id: &str, work: u64, seen: u64, jobs: u32) -> Candidate {
    Candidate { node_id: id.into(), delivered_work: work, last_seen_secs: seen, running_jobs: jobs }
}

fn atlas_entry(id: &str, tags: &[&str]) -> AtlasEntry {
    AtlasEntry {
        node_id: id.into(),
        cpu_cores: 4,
        mem_mb: 8192,
        running_jobs: 0,
        last_seen_secs: 0,
        tags: tags.iter().map(|s| s.to_string()).collect(),
    }
}

#[test]
fn candidates_require_docker_and_match_select() {
    let atlas = vec![
        atlas_entry("a", &["docker", "gpu"]),
        atlas_entry("b", &["gpu"]),
        atlas_entry("c", &["docker"]),
    ];
    let all: Vec<_> = candidates(&atlas, None).iter().map(|h| h.node_id.clone()).collect();
    assert_eq!(all, vec!["a", "c"]);
    let gpu: Vec<_> = candidates(&atlas, Some("gpu")).iter().map(|h| h.node_id.clone()).collect();
    assert_eq!(gpu, vec!["a"]);
}

#[test]
fn ranks_proven_then_least_loaded() {
    let cs = vec![cand("a", 0, 1, 0), cand("b", 5, 1, 3), cand("c", 5, 1, 1)];
    let ranked: Vec<_> = rank(&cs).into_iter().map(|c| c.node_id).collect();
    assert_eq!(ranked, vec!["c", "b", "a"]);
}

#[test]
fn select_caps_to_n() {
    let cs = vec![cand("a", 9, 1, 0), cand("b", 8, 1, 0), cand("c", 7, 1, 0)];
    assert_eq!(select(&cs, 2), vec!["a", "b"]);
}

#[test]
fn assign_round_robin() {
    let hosts = vec!["h1".to_string(), "h2".to_string()];
    assert_eq!(assign(5, &hosts), vec!["h1", "h2", "h1", "h2", "h1"]);
    assert!(assign(3, &[]).is_empty());
}

#[test]
fn verifier_is_a_different_host() {
    let hosts = vec!["h1".to_string(), "h2".to_string()];
    assert_eq!(verifier_for("h1", &hosts).as_deref(), Some("h2"));
    assert_eq!(verifier_for("h1", &["h1".to_string()]), None);
}

#[test]
fn ties_go_by_freshness_then_by_id() {
    let cs = vec![cand("z", 5, 9, 1), cand("b", 5, 2, 1), cand("a", 5, 2, 1), cand("\u{e9}", 5, 2, 1)];
    let ranked: Vec<_> = rank(&cs).into_iter().map(|c| c.node_id).collect();
    assert_eq!(ranked, vec!["a", "b", "\u{e9}", "z"]);
}

#[test]
fn ranking_ignores_the_order_given() {
    let a = vec![cand("a", 1, 1, 1), cand("b", 3, 2, 1), cand("c", 2, 2, 9), cand("d", 2, 2, 1)];
    let mut b = a.clone();
    b.reverse();
    assert_eq!(rank(&a), rank(&b));
    assert_eq!(rank(&a)[0], cand("b", 3, 2, 1));
}

#[test]
fn select_names_each_host_once() {
    let cs = vec![cand("a", 9, 1, 0), cand("a", 8, 1, 0), cand("c", 7, 1, 0)];
    assert_eq!(select(&cs, 2), vec!["a", "c"]);
    assert_eq!(select(&cs, 0), Vec::<String>::new());
    assert_eq!(select(&cs, 9).len(), 2);
}

#[test]
fn distinct_keeps_first_places() {
    let names: Vec<String> = ["b", "a", "b", "c", "a"].iter().map(|s| s.to_string()).collect();
    assert_eq!(distinct(&names), vec!["b", "a", "c"]);
}

#[test]
fn an_entry_becomes_a_candidate() {
    let mut entry = atlas_entry("n", &["docker"]);
    entry.running_jobs = 3;
    entry.last_seen_secs = 11;
    assert_eq!(to_candidate(&entry, 42), cand("n", 42, 11, 3));
    assert!(entry.has_tag("docker"));
    assert!(!entry.has_tag("dock"));
}

use sig_poller::cache::SignatureCache;
use sig_poller::poller::{checkpoint_line, parse_checkpoint, plan_cycle, CatchUp, SignatureStatus};

fn st(sig: &str, slot: u64) -> SignatureStatus {
    SignatureStatus { signature: sig.to_string(), slot }
}

fn sigs(v: &[SignatureStatus]) -> Vec<String> {
    v.iter().map(|s| s.signature.clone()).collect()
}

#[test]
fn full_pages_continue_short_page_ends() {
    let mut c = CatchUp::new();
    assert!(c.before().is_none());
    c.accept_page(vec![st("r5", 5), st("r4", 4)], 2);
    assert!(!c.is_done());
    assert_eq!(c.before(), Some("r4".to_string()));
    c.accept_page(vec![st("r3", 3)], 2);
    assert!(c.is_done());
    assert_eq!(sigs(&c.into_collected()), vec!["r5", "r4", "r3"]);
}

#[test]
fn empty_page_ends_catch_up() {
    let mut c = CatchUp::new();
    c.accept_page(vec![], 2);
    assert!(c.is_done());
    assert!(c.into_collected().is_empty());
}

#[test]
fn cycle_reverses_and_advances_checkpoint() {
    let mut cache = SignatureCache::new(10);
    let mut last_seen = None;
    let plan = plan_cycle(&mut cache, &mut last_seen, vec![st("r3", 3), st("r2", 2), st("r1", 1)]);
    assert_eq!(sigs(&plan.to_process), vec!["r1", "r2", "r3"]);
    assert_eq!(plan.persist, Some("r3".to_string()));
    assert_eq!(last_seen, Some("r3".to_string()));
    assert!(cache.is_seen("r1") && cache.is_seen("r2") && cache.is_seen("r3"));
}

#[test]
fn empty_listing_keeps_checkpoint() {
    let mut cache = SignatureCache::new(10);
    let mut last_seen = Some("r3".to_string());
    let plan = plan_cycle(&mut cache, &mut last_seen, vec![]);
    assert!(plan.to_process.is_empty());
    assert!(plan.persist.is_none());
    assert_eq!(last_seen, Some("r3".to_string()));
}

#[test]
fn overlap_is_filtered_by_cache() {
    let mut cache = SignatureCache::new(10);
    let mut last_seen = None;
    plan_cycle(&mut cache, &mut last_seen, vec![st("r3", 3), st("r2", 2), st("r1", 1)]);
    let plan = plan_cycle(&mut cache, &mut last_seen, vec![st("r4", 4), st("r3", 3), st("r2", 2)]);
    assert_eq!(sigs(&plan.to_process), vec!["r4"]);
    assert_eq!(last_seen, Some("r4".to_string()));
}

#[test]
fn restart_processes_only_new_listing() {
    let mut cache = SignatureCache::new(10);
    let mut last_seen = parse_checkpoint("r3\n");
    assert_eq!(last_seen, Some("r3".to_string()));
    let plan = plan_cycle(&mut cache, &mut last_seen, vec![st("r5", 5), st("r4", 4)]);
    assert_eq!(sigs(&plan.to_process), vec!["r4", "r5"]);
    assert_eq!(last_seen, Some("r5".to_string()));
}

#[test]
fn checkpoint_slot_grows_over_cycles() {
    let mut cache = SignatureCache::new(4);
    let mut last_seen = None;
    let mut best = 0u64;
    let mut next = 1u64;
    for _ in 0..5 {
        let listing = vec![st(&format!("r{}", next + 2), next + 2), st(&format!("r{}", next + 1), next + 1), st(&format!("r{}", next), next)];
        let plan = plan_cycle(&mut cache, &mut last_seen, listing);
        let written = plan.persist.unwrap();
        let slot: u64 = written[1..].parse().unwrap();
        assert!(slot >= best);
        best = slot;
        assert_eq!(slot, next + 2);
        next += 3;
    }
}

#[test]
fn checkpoint_text_is_trimmed() {
    assert_eq!(parse_checkpoint("  abc \n"), Some("abc".to_string()));
    assert_eq!(parse_checkpoint(" \n\t"), None);
    assert_eq!(parse_checkpoint(""), None);
}

#[test]
fn checkpoint_line_ends_with_newline() {
    assert_eq!(checkpoint_line("abc"), "abc\n");
    assert_eq!(parse_checkpoint(&checkpoint_line("abc")), Some("abc".to_string()));
}

use ai4all::network::NodeCapabilities;
use ai4all::registry::CapabilityRegistry;

fn advert(node_id: &str, models: &[&str], memory_gib: u64) -> NodeCapabilities {
    NodeCapabilities {
        node_id: node_id.to_string(),
        models: models.iter().map(|m| m.to_string()).collect(),
        memory_mib: memory_gib * 1024,
        layer_ranges: vec![],
    }
}

fn ids(registry: &CapabilityRegistry, model: &str) -> Vec<String> {
    registry.candidates(model).into_iter().map(|r| r.node_id).collect()
}

#[test]
fn candidates_puts_more_memory_first() {
    let mut registry = CapabilityRegistry::new();
    registry.update(advert("P1", &["llama3"], 24), 1);
    registry.update(advert("P2", &["llama3"], 48), 2);
    let ranked = registry.candidates("llama3");
    assert_eq!(ranked.len(), 2);
    assert_eq!(ranked[0].node_id, "P2");
    assert_eq!(ranked[0].capabilities.memory_mib, 48 * 1024);
    assert_eq!(ranked[1].node_id, "P1");
}

#[test]
fn candidates_are_exactly_the_peers_with_the_model() {
    let mut registry = CapabilityRegistry::new();
    registry.update(advert("a", &["llama3", "mistral"], 8), 1);
    registry.update(advert("b", &["mistral"], 64), 2);
    registry.update(advert("c", &[], 128), 3);
    registry.update(advert("d", &["llama3"], 16), 4);
    registry.update(advert("e", &["Llama3", "llama3 ", "llama"], 256), 5);
    assert_eq!(ids(&registry, "llama3"), vec!["d", "a"]);
    assert_eq!(ids(&registry, "mistral"), vec!["b", "a"]);
    assert_eq!(ids(&registry, "llama"), vec!["e"]);
    assert_eq!(ids(&registry, "gpt"), Vec::<String>::new());
    assert_eq!(ids(&registry, ""), Vec::<String>::new());
    assert_eq!(registry.len(), 5);
}

#[test]
fn equal_memory_is_ranked_by_identifier() {
    let mut registry = CapabilityRegistry::new();
    for id in ["b", "ab", "a", "B", "aa", "", "é", "z", "a\u{10000}"] {
        registry.update(advert(id, &["m"], 16), 0);
    }
    registry.update(advert("zz", &["m"], 17), 0);
    let mut expected: Vec<String> =
        ["b", "ab", "a", "B", "aa", "", "é", "z", "a\u{10000}"].iter().map(|s| s.to_string()).collect();
    expected.sort();
    expected.insert(0, "zz".to_string());
    assert_eq!(ids(&registry, "m"), expected);
    assert_eq!(
        ids(&registry, "m"),
        vec!["zz", "", "B", "a", "aa", "ab", "a\u{10000}", "b", "z", "é"]
    );
}

#[test]
fn ranking_does_not_depend_on_order_of_arrival() {
    let adverts = [("n1", 32), ("n2", 8), ("n3", 32), ("n4", 64), ("n5", 8)];
    let mut forward = CapabilityRegistry::new();
    for (id, memory) in adverts {
        forward.update(advert(id, &["m"], memory), 0);
    }
    let mut backward = CapabilityRegistry::new();
    for (id, memory) in adverts.iter().rev() {
        backward.update(advert(id, &["m"], *memory), 0);
    }
    let expected = vec!["n4", "n1", "n3", "n2", "n5"];
    assert_eq!(ids(&forward, "m"), expected);
    assert_eq!(ids(&backward, "m"), expected);
    assert_eq!(ids(&forward, "m"), ids(&forward, "m"));
}

#[test]
fn later_advertisement_replaces_the_earlier() {
    let mut registry = CapabilityRegistry::new();
    registry.update(advert("p", &["old"], 8), 10);
    registry.update(advert("q", &["old"], 4), 11);
    registry.update(advert("p", &["new"], 2), 12);
    assert_eq!(registry.len(), 2);
    assert_eq!(ids(&registry, "old"), vec!["q"]);
    assert_eq!(ids(&registry, "new"), vec!["p"]);
    let record = registry.get("p").unwrap();
    assert_eq!(record.node_id, "p");
    assert_eq!(record.capabilities.node_id, "p");
    assert_eq!(record.capabilities.models, vec!["new"]);
    assert_eq!(record.capabilities.memory_mib, 2048);
    assert_eq!(record.last_updated, 12);
    assert_eq!(registry.get("q").unwrap().last_updated, 11);
    assert!(registry.get("r").is_none());
}

#[test]
fn advertisement_keeps_its_layer_ranges() {
    let mut registry = CapabilityRegistry::new();
    let mut caps = advert("p", &["m"], 1);
    caps.layer_ranges = vec![("m".to_string(), 0, 15), ("m".to_string(), 16, 31)];
    assert!(caps.serves("m"));
    assert!(!caps.serves("n"));
    let copy = caps.clone();
    assert_eq!(copy.layer_ranges, caps.layer_ranges);
    assert_eq!(copy.models, caps.models);
    registry.update(caps, 5);
    let ranked = registry.candidates("m");
    assert_eq!(
        ranked[0].capabilities.layer_ranges,
        vec![("m".to_string(), 0, 15), ("m".to_string(), 16, 31)]
    );
    assert_eq!(ranked[0].clone().last_updated, 5);
}

#[test]
fn removed_peer_is_no_candidate() {
    let mut registry = CapabilityRegistry::new();
    registry.update(advert("p", &["m"], 8), 1);
    registry.update(advert("q", &["m"], 4), 1);
    registry.update(advert("r", &["m"], 2), 1);
    assert!(registry.remove("q"));
    assert!(!registry.remove("q"));
    assert!(!registry.remove("never"));
    assert_eq!(registry.len(), 2);
    assert_eq!(ids(&registry, "m"), vec!["p", "r"]);
    assert!(registry.remove("p"));
    assert!(registry.remove("r"));
    assert_eq!(registry.len(), 0);
    assert!(registry.candidates("m").is_empty());
    registry.update(advert("q", &["m"], 4), 2);
    assert_eq!(ids(&registry, "m"), vec!["q"]);
}

#[test]
fn empty_registry_has_no_candidates() {
    let registry = CapabilityRegistry::new();
    assert_eq!(registry.len(), 0);
    assert!(registry.candidates("llama3").is_empty());
    assert!(registry.get("p").is_none());
}

#[test]
fn stale_entries_are_evicted() {
    let mut registry = CapabilityRegistry::new();
    registry.update(advert("a", &["m"], 8), 10);
    registry.update(advert("b", &["m"], 4), 20);
    registry.update(advert("c", &["m"], 2), 30);
    registry.update(advert("a", &["m"], 8), 25);
    assert_eq!(registry.evict_stale(10), 0);
    assert_eq!(registry.len(), 3);
    assert_eq!(registry.evict_stale(21), 1);
    assert_eq!(ids(&registry, "m"), vec!["a", "c"]);
    assert_eq!(registry.evict_stale(26), 1);
    assert_eq!(ids(&registry, "m"), vec!["c"]);
    assert_eq!(registry.evict_stale(i64::MIN), 0);
    assert_eq!(registry.evict_stale(i64::MAX), 1);
    assert_eq!(registry.len(), 0);
    assert_eq!(registry.evict_stale(0), 0);
}

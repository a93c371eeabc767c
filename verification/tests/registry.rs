use inspequte::rules::registry::all_rules;

#[test]
fn all_rules_have_unique_ids() {
    let rules = all_rules();
    assert!(!rules.is_empty(), "At least one rule must be registered");

    let mut ids: Vec<_> = rules.iter().map(|r| r.metadata().id).collect();
    let total = ids.len();
    ids.sort();
    ids.dedup();
    assert_eq!(ids.len(), total, "Rule IDs must be unique");
}

#[test]
fn all_rules_have_non_empty_metadata() {
    for rule in all_rules() {
        let meta = rule.metadata();
        assert!(!meta.id.is_empty(), "Rule ID must not be empty");
        assert!(!meta.name.is_empty(), "Rule name must not be empty");
        assert!(
            !meta.description.is_empty(),
            "Rule description must not be empty"
        );
    }
}

#[test]
fn all_rules_are_listed_in_ascending_id_order() {
    let ids: Vec<&str> = all_rules().iter().map(|r| r.metadata().id).collect();
    let mut sorted = ids.clone();
    sorted.sort();
    assert_eq!(ids, sorted);
    assert_eq!(ids.len(), 19);
    assert_eq!(ids[0], "ARRAY_EQUALS");
    assert_eq!(ids[18], "SLF4J_LOGGER_SHOULD_BE_FINAL");
}

use fivem_utils::resources::classify_resources;

fn pairs(v: &[(&str, &str)]) -> Vec<(String, String)> {
    v.iter().map(|(a, b)| (a.to_string(), b.to_string())).collect()
}

#[test]
fn declared_resources_are_found_or_missing() {
    let declared = vec!["a".to_string(), "b".to_string()];
    let present = pairs(&[("a", "/res/a"), ("c", "/res/c")]);
    let (statuses, extras) = classify_resources(&declared, &present);
    assert_eq!(statuses.len(), 2);
    assert_eq!(statuses[0], ("a".to_string(), Some("/res/a".to_string())));
    assert_eq!(statuses[1], ("b".to_string(), None));
    assert_eq!(extras, pairs(&[("c", "/res/c")]));
}

#[test]
fn a_duplicate_declaration_consumes_the_listing_once() {
    let declared = vec!["a".to_string(), "a".to_string()];
    let present = pairs(&[("a", "/res/a")]);
    let (statuses, extras) = classify_resources(&declared, &present);
    assert_eq!(statuses[0], ("a".to_string(), Some("/res/a".to_string())));
    assert_eq!(statuses[1], ("a".to_string(), None));
    assert!(extras.is_empty());
}

#[test]
fn nothing_declared_leaves_everything_extra() {
    let declared: Vec<String> = Vec::new();
    let present = pairs(&[("x", "/res/x")]);
    let (statuses, extras) = classify_resources(&declared, &present);
    assert!(statuses.is_empty());
    assert_eq!(extras, present);
}

#[test]
fn declaration_order_is_kept() {
    let declared = vec!["b".to_string(), "a".to_string()];
    let present = pairs(&[("a", "/res/a"), ("b", "/res/b")]);
    let (statuses, extras) = classify_resources(&declared, &present);
    assert_eq!(statuses[0], ("b".to_string(), Some("/res/b".to_string())));
    assert_eq!(statuses[1], ("a".to_string(), Some("/res/a".to_string())));
    assert!(extras.is_empty());
}

use tagwatch::record::Record;

#[test]
fn new_record_reads_empty() {
    let r = Record::new();
    assert_eq!(r.get("acme/app"), "");
}

#[test]
fn set_then_get() {
    let mut r = Record::new();
    r.set("acme/app", "v1.0");
    assert_eq!(r.get("acme/app"), "v1.0");
    assert_eq!(r.get("acme/other"), "");
}

#[test]
fn get_takes_first_match() {
    let mut r = Record::new();
    r.set("acme/app", "v1.0");
    r.set("acme/app", "v2.0");
    assert_eq!(r.get("acme/app"), "v1.0");
}

#[test]
fn set_tag_updates_first_entry() {
    let mut r = Record::new();
    r.set("acme/app", "v1.0");
    r.set("acme/lib", "v0.1");
    r.set_tag("acme/app", "v1.1");
    assert_eq!(r.get("acme/app"), "v1.1");
    assert_eq!(r.get("acme/lib"), "v0.1");
}

#[test]
fn set_tag_appends_new_entry() {
    let mut r = Record::new();
    r.set("acme/app", "v1.0");
    r.set_tag("acme/lib", "v0.1");
    assert_eq!(r.get("acme/lib"), "v0.1");
    let m = r.get_map();
    assert_eq!(m.len(), 2);
    assert_eq!(m[1], ("acme/lib".to_string(), "v0.1".to_string()));
}

#[test]
fn get_map_keeps_storage_order() {
    let mut r = Record::new();
    r.set("b/b", "2");
    r.set("a/a", "1");
    let m = r.get_map();
    assert_eq!(
        m,
        vec![
            ("b/b".to_string(), "2".to_string()),
            ("a/a".to_string(), "1".to_string()),
        ]
    );
}

#[test]
fn set_map_upserts_in_order() {
    let mut r = Record::new();
    r.set("acme/app", "v1.0");
    r.set("acme/lib", "v0.1");
    r.set_map(vec![
        ("acme/app".to_string(), "v1.1".to_string()),
        ("acme/new".to_string(), "v9".to_string()),
    ]);
    assert_eq!(r.get("acme/app"), "v1.1");
    assert_eq!(r.get("acme/lib"), "v0.1");
    assert_eq!(r.get("acme/new"), "v9");
    let m = r.get_map();
    assert_eq!(m.len(), 3);
    assert_eq!(m[0], ("acme/app".to_string(), "v1.1".to_string()));
    assert_eq!(m[2], ("acme/new".to_string(), "v9".to_string()));
}

#[test]
fn set_map_last_update_wins() {
    let mut r = Record::new();
    r.set_map(vec![
        ("acme/app".to_string(), "v1".to_string()),
        ("acme/app".to_string(), "v2".to_string()),
    ]);
    assert_eq!(r.get("acme/app"), "v2");
    assert_eq!(r.get_map().len(), 1);
}

use tunnel_registry::registry::{Registry, RegistryError};
use tunnel_registry::tunnel::{default_timeout, AuthCredential, TunnelDefinition};

fn def(id: u64, name: &str, hostname: &str, credential: AuthCredential) -> TunnelDefinition {
    TunnelDefinition {
        id,
        name: name.to_string(),
        username: "root".to_string(),
        hostname: hostname.to_string(),
        local_port: 8080,
        remote_port: 80,
        credential,
        timeout_seconds: 30,
        auto_connect: false,
    }
}

fn password_auth(pw: Option<&str>) -> AuthCredential {
    AuthCredential::PasswordAuth { saved_password: pw.map(|s| s.to_string()) }
}

fn key_auth(path: Option<&str>) -> AuthCredential {
    AuthCredential::KeyAuth { key_path: path.map(|s| s.to_string()) }
}

fn to_string(text: &Vec<char>) -> String {
    text.iter().collect()
}

fn to_chars(text: &str) -> Vec<char> {
    text.chars().collect()
}

#[test]
fn default_timeout_is_thirty() {
    assert_eq!(default_timeout(), 30);
}

#[test]
fn add_then_list_contains_exactly_the_added() {
    let mut reg = Registry::new();
    assert!(reg.add(def(1, "alpha", "a.example", password_auth(None))).is_ok());
    assert!(reg.add(def(2, "beta", "b.example", key_auth(Some("/k")))).is_ok());
    let listed = reg.list();
    assert_eq!(listed.len(), 2);
    let mut ids: Vec<u64> = listed.iter().map(|d| d.id).collect();
    ids.sort();
    assert_eq!(ids, vec![1, 2]);
    for d in listed.iter() {
        match d.id {
            1 => assert_eq!(d.name, "alpha"),
            2 => assert_eq!(d.name, "beta"),
            _ => panic!("unexpected id"),
        }
    }
}

#[test]
fn add_duplicate_id_is_rejected_and_registry_unchanged() {
    let mut reg = Registry::new();
    assert!(reg.add(def(1, "first", "h", password_auth(None))).is_ok());
    let r = reg.add(def(1, "second", "h2", password_auth(None)));
    assert_eq!(r, Err(RegistryError::DuplicateId));
    assert_eq!(reg.list().len(), 1);
    assert_eq!(reg.get(1).unwrap().name, "first");
}

#[test]
fn get_absent_id_is_none() {
    let reg = Registry::new();
    assert!(reg.get(9).is_none());
}

#[test]
fn remove_present_id_removes_exactly_that_entry() {
    let mut reg = Registry::new();
    reg.add(def(1, "one", "h1", password_auth(None))).unwrap();
    reg.add(def(2, "two", "h2", password_auth(None))).unwrap();
    assert_eq!(reg.remove(1), Ok(()));
    assert!(reg.get(1).is_none());
    assert_eq!(reg.get(2).unwrap().name, "two");
    assert_eq!(reg.list().len(), 1);
}

#[test]
fn remove_absent_id_reports_not_found_and_changes_nothing() {
    let mut reg = Registry::new();
    reg.add(def(1, "one", "h1", password_auth(None))).unwrap();
    let before = to_string(&reg.store_text());
    assert_eq!(reg.remove(7), Err(RegistryError::NotFound));
    assert_eq!(to_string(&reg.store_text()), before);
}

#[test]
fn search_finds_by_name_and_hostname_substring() {
    let mut reg = Registry::new();
    reg.add(def(1, "db-prod", "10.0.0.5", password_auth(None))).unwrap();
    reg.add(def(2, "web", "front.example", password_auth(None))).unwrap();

    let by_name = reg.search("db");
    assert_eq!(by_name.len(), 1);
    assert_eq!(by_name[0].id, 1);

    let by_host = reg.search("0.0");
    assert_eq!(by_host.len(), 1);
    assert_eq!(by_host[0].id, 1);

    let all = reg.search("");
    assert_eq!(all.len(), 2);
}

#[test]
fn search_is_case_sensitive_and_no_match_is_empty() {
    let mut reg = Registry::new();
    reg.add(def(1, "db-prod", "10.0.0.5", password_auth(None))).unwrap();
    assert!(reg.search("DB").is_empty());
    assert!(reg.search("zzz").is_empty());
}

#[test]
fn save_load_round_trip_reproduces_all_definitions() {
    let mut reg = Registry::new();
    let mut d1 = def(1, "alpha;with:odd\nchars +—", "h1", key_auth(Some("/home/u/.ssh/id")));
    d1.timeout_seconds = 7;
    d1.auto_connect = true;
    reg.add(d1).unwrap();
    reg.add(def(2, "beta", "h2", password_auth(Some("s3cr:et;")))).unwrap();
    reg.add(def(3, "gamma", "h3", key_auth(None))).unwrap();

    let text = reg.store_text();
    let loaded = Registry::from_text(&text).unwrap();
    assert_eq!(loaded.list().len(), 3);

    let l1 = loaded.get(1).unwrap();
    assert_eq!(l1.name, "alpha;with:odd\nchars +—");
    assert_eq!(l1.hostname, "h1");
    assert_eq!(l1.timeout_seconds, 7);
    assert!(l1.auto_connect);
    assert!(matches!(&l1.credential,
        AuthCredential::KeyAuth { key_path: Some(p) } if p == "/home/u/.ssh/id"));

    let l2 = loaded.get(2).unwrap();
    assert!(matches!(&l2.credential,
        AuthCredential::PasswordAuth { saved_password: Some(p) } if p == "s3cr:et;"));

    let l3 = loaded.get(3).unwrap();
    assert!(matches!(&l3.credential, AuthCredential::KeyAuth { key_path: None }));
}

#[test]
fn store_text_has_the_exact_expected_form() {
    let mut reg = Registry::new();
    let mut d = def(7, "db", "h", password_auth(None));
    d.username = "root".to_string();
    d.local_port = 80;
    d.remote_port = 443;
    reg.add(d).unwrap();
    let text = to_string(&reg.store_text());
    assert_eq!(text, "1\n7;2:db4:root1:h80;443;+f-+30;+f-\n");
}

#[test]
fn export_text_is_indented_one_record_per_line() {
    let mut reg = Registry::new();
    let mut d = def(7, "db", "h", password_auth(None));
    d.local_port = 80;
    d.remote_port = 443;
    reg.add(d).unwrap();
    reg.add(def(9, "web", "w", key_auth(Some("/k")))).unwrap();
    let text = to_string(&reg.export_text());
    assert!(text.starts_with("2\n"));
    let lines: Vec<&str> = text.lines().collect();
    assert_eq!(lines.len(), 3);
    assert!(lines[1].starts_with("  "));
    assert!(lines[2].starts_with("  "));
}

#[test]
fn exported_text_imports_back_to_the_same_registry() {
    let mut reg = Registry::new();
    reg.add(def(1, "alpha", "h1", key_auth(Some("/id")))).unwrap();
    reg.add(def(2, "beta", "h2", password_auth(Some("pw")))).unwrap();
    let exported = reg.export_text();

    let loaded = Registry::from_text(&exported).unwrap();
    assert_eq!(loaded.list().len(), 2);
    assert_eq!(loaded.get(1).unwrap().name, "alpha");
    assert!(matches!(&loaded.get(2).unwrap().credential,
        AuthCredential::PasswordAuth { saved_password: Some(p) } if p == "pw"));

    let mut other = Registry::new();
    assert_eq!(other.import_text(&exported), Ok(()));
    assert_eq!(other.list().len(), 2);
}

#[test]
fn load_fills_missing_fields_with_defaults() {
    // A record whose five defaulted fields are all absent: use_key_auth
    // and auto_connect become false, key_path and saved_password become
    // none, and the timeout becomes 30.
    let text = to_chars("1\n1;1:a1:u1:h1;2;-----\n");
    let reg = Registry::from_text(&text).unwrap();
    let d = reg.get(1).unwrap();
    assert_eq!(d.name, "a");
    assert_eq!(d.timeout_seconds, 30);
    assert!(!d.auto_connect);
    assert!(matches!(&d.credential, AuthCredential::PasswordAuth { saved_password: None }));
}

#[test]
fn malformed_store_is_corrupt_not_empty() {
    assert!(matches!(
        Registry::from_text(&to_chars("garbage")),
        Err(RegistryError::CorruptStore)
    ));
    // A truncated record is corrupt too.
    assert!(matches!(
        Registry::from_text(&to_chars("1\n1;1:a")),
        Err(RegistryError::CorruptStore)
    ));
    // A zero timeout violates the data model.
    assert!(matches!(
        Registry::from_text(&to_chars("1\n1;1:a1:u1:h1;2;--+0;--\n")),
        Err(RegistryError::CorruptStore)
    ));
    // Trailing bytes after the last record are corrupt.
    assert!(matches!(
        Registry::from_text(&to_chars("1\n1;1:a1:u1:h1;2;-----\nx")),
        Err(RegistryError::CorruptStore)
    ));
    // An id too large to store is corrupt, not wrapped around.
    assert!(matches!(
        Registry::from_text(&to_chars("1\n99999999999999999999999;1:a1:u1:h1;2;-----\n")),
        Err(RegistryError::CorruptStore)
    ));
    // A port over 65535 is corrupt.
    assert!(matches!(
        Registry::from_text(&to_chars("1\n1;1:a1:u1:h70000;2;-----\n")),
        Err(RegistryError::CorruptStore)
    ));
}

#[test]
fn empty_store_loads_as_empty_registry() {
    let reg = Registry::from_text(&to_chars("0\n")).unwrap();
    assert_eq!(reg.list().len(), 0);
}

#[test]
fn import_overwrites_entry_with_same_id() {
    let mut reg = Registry::new();
    reg.add(def(1, "old-name", "h", password_auth(None))).unwrap();

    let mut other = Registry::new();
    other.add(def(1, "new-name", "h", password_auth(None))).unwrap();
    let text = other.store_text();

    assert_eq!(reg.import_text(&text), Ok(()));
    assert_eq!(reg.get(1).unwrap().name, "new-name");
    assert_eq!(reg.list().len(), 1);
}

#[test]
fn import_merges_and_keeps_unrelated_entries() {
    let mut reg = Registry::new();
    reg.add(def(1, "one", "h1", password_auth(None))).unwrap();

    let mut other = Registry::new();
    other.add(def(2, "two", "h2", password_auth(None))).unwrap();

    assert_eq!(reg.import_text(&other.store_text()), Ok(()));
    assert_eq!(reg.list().len(), 2);
    assert_eq!(reg.get(1).unwrap().name, "one");
    assert_eq!(reg.get(2).unwrap().name, "two");
}

#[test]
fn import_of_malformed_text_changes_nothing() {
    let mut reg = Registry::new();
    reg.add(def(1, "one", "h1", password_auth(None))).unwrap();
    let before = to_string(&reg.store_text());
    assert_eq!(reg.import_text(&to_chars("broken")), Err(RegistryError::CorruptStore));
    assert_eq!(to_string(&reg.store_text()), before);
}

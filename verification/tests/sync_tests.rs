use cod_settings::document::{
    export_to_json, import_apply_all, parse_export_document, ConfigFileData, ImportError,
};
use cod_settings::merge::import_into_content;
use cod_settings::settings::{parse_cod_settings, SettingsMap};

fn b(s: &str) -> Vec<u8> {
    s.as_bytes().to_vec()
}

#[test]
fn export_then_import_restores_exported_values() {
    let original = b("fov_scale = 1.0\nbrightness = 5\nunrelated_key = keep");
    let files = vec![ConfigFileData { name: b("g.1.0.l.txt0"), content: Some(original) }];
    let cats = vec![b("fov"), b("brightness")];
    let json = export_to_json(&files, &cats);

    let modified = b("fov_scale = 9.9\nbrightness = 0\nunrelated_key = keep");
    let doc = parse_export_document(&json).unwrap();
    let files2 = vec![ConfigFileData { name: b("g.1.0.l.txt0"), content: Some(modified) }];
    let updates = import_apply_all(&files2, &doc);
    assert_eq!(updates.len(), 1);
    let merged = updates[0].new_content.clone().unwrap();
    let m = parse_cod_settings(&merged);
    assert_eq!(m.get(&b("fov_scale")), Some(&b("1.0")));
    assert_eq!(m.get(&b("brightness")), Some(&b("5")));
    assert_eq!(m.get(&b("unrelated_key")), Some(&b("keep")));
}

#[test]
fn importing_twice_equals_importing_once() {
    let mut section = SettingsMap::new();
    section.insert(b("fov_scale"), b("1.0"));
    section.insert(b("brightness"), b("5"));
    let content = b("name = player\nfov_scale = 2.0\nsound = on");
    let (once, changed1) = import_into_content(&content, &section);
    assert!(changed1);
    let (twice, changed2) = import_into_content(&once, &section);
    assert!(!changed2);
    assert_eq!(once, twice);
}

#[test]
fn import_with_zero_applied_changes_rewrites_nothing() {
    let mut section = SettingsMap::new();
    section.insert(b("fov"), b("1"));
    let content = b("fov = 1\nother = x");
    let (merged, changed) = import_into_content(&content, &section);
    assert!(!changed);
    assert_eq!(merged, content);

    let files = vec![ConfigFileData { name: b("g.p.txt0"), content: Some(content) }];
    let json = export_to_json(&files, &vec![b("fov")]);
    let doc = parse_export_document(&json).unwrap();
    let updates = import_apply_all(&files, &doc);
    assert_eq!(updates[0].new_content, None);
}

#[test]
fn missing_key_appends_exactly_one_line() {
    let mut section = SettingsMap::new();
    section.insert(b("newkey"), b("7"));
    let content = b("a = 1\nb = 2");
    let (merged, changed) = import_into_content(&content, &section);
    assert!(changed);
    assert_eq!(merged, b("a = 1\nb = 2\nnewkey = 7"));
}

#[test]
fn absent_keys_append_in_section_order() {
    let mut section = SettingsMap::new();
    section.insert(b("alpha"), b("1"));
    section.insert(b("beta"), b("2"));
    let content = b("existing = x");
    let (merged, changed) = import_into_content(&content, &section);
    assert!(changed);
    assert_eq!(merged, b("existing = x\nalpha = 1\nbeta = 2"));
}

#[test]
fn import_replaces_whole_matching_line() {
    let mut section = SettingsMap::new();
    section.insert(b("speed"), b("4"));
    let content = b("  speed = 1 // old comment\nother = x");
    let (merged, _) = import_into_content(&content, &section);
    assert_eq!(merged, b("speed = 4\nother = x"));
}

#[test]
fn import_prefix_key_captures_longer_key_line() {
    // The documented quirk of the line matcher: a key that is a prefix of
    // a longer key matches the longer key's line when it comes first.
    let mut section = SettingsMap::new();
    section.insert(b("fov"), b("90"));
    let content = b("fovscale = 1.5");
    let (merged, _) = import_into_content(&content, &section);
    assert_eq!(merged, b("fov = 90"));
}

#[test]
fn empty_section_changes_nothing() {
    let section = SettingsMap::new();
    let content = b("a = 1");
    let (merged, changed) = import_into_content(&content, &section);
    assert!(!changed);
    assert_eq!(merged, b("a = 1"));
}

#[test]
fn files_without_section_stay_untouched() {
    let files = vec![ConfigFileData { name: b("g.listed.txt0"), content: Some(b("x = 1")) }];
    let json = export_to_json(&files, &vec![b("x")]);
    let doc = parse_export_document(&json).unwrap();
    let others = vec![
        ConfigFileData { name: b("g.other.txt0"), content: Some(b("x = 2")) },
        ConfigFileData { name: b("g.listed.txt0"), content: None },
    ];
    let updates = import_apply_all(&others, &doc);
    assert_eq!(updates[0].new_content, None);
    assert_eq!(updates[1].new_content, None);
}

#[test]
fn malformed_document_is_rejected() {
    assert_eq!(
        parse_export_document(&b("this is not json")).unwrap_err(),
        ImportError::MalformedDocument
    );
    assert_eq!(
        parse_export_document(&b("{\"a\": 3}")).unwrap_err(),
        ImportError::MalformedDocument
    );
}

#[test]
fn exported_json_parses_back_to_the_filtered_sections() {
    let files = vec![
        ConfigFileData {
            name: b("g.1.txt0"),
            content: Some(b("mouse_speed = 3\nvolume = 9")),
        },
        ConfigFileData { name: b("g.2.txt1"), content: Some(b("fov = 100")) },
    ];
    let cats = vec![b("mouse"), b("fov")];
    let json = export_to_json(&files, &cats);
    let doc = parse_export_document(&json).unwrap();
    assert_eq!(doc.sections.len(), 2);
    let s1 = doc.find_section(&b("g.1.txt0")).unwrap();
    assert_eq!(s1.get(&b("mouse_speed")), Some(&b("3")));
    assert_eq!(s1.get(&b("volume")), None);
    let s2 = doc.find_section(&b("g.2.txt1")).unwrap();
    assert_eq!(s2.get(&b("fov")), Some(&b("100")));
}

#[test]
fn unreadable_files_are_skipped_and_empty_export_is_valid() {
    let files = vec![ConfigFileData { name: b("g.bad.txt0"), content: None }];
    let json = export_to_json(&files, &vec![b("fov")]);
    let doc = parse_export_document(&json).unwrap();
    assert_eq!(doc.sections.len(), 0);
}

#[test]
fn export_pretty_prints_deterministically() {
    let files = vec![ConfigFileData {
        name: b("g.p.txt0"),
        content: Some(b("fov = 1\nfov_b = 2")),
    }];
    let cats = vec![b("fov")];
    let once = export_to_json(&files, &cats);
    let again = export_to_json(&files, &cats);
    assert_eq!(once, again);
    let text = String::from_utf8(once).unwrap();
    assert!(text.contains("\"fov\": \"1\""));
    assert!(text.contains("\"fov_b\": \"2\""));
}

use cod_settings::settings::{
    default_categories, filter_settings, parse_cod_settings, SettingsMap,
};

fn b(s: &str) -> Vec<u8> {
    s.as_bytes().to_vec()
}

#[test]
fn parse_splits_on_first_eq_and_trims() {
    let m = parse_cod_settings(&b("fov_scale = 1.0\nbrightness=5\n# comment\nplain line\n"));
    assert_eq!(m.get(&b("fov_scale")), Some(&b("1.0")));
    assert_eq!(m.get(&b("brightness")), Some(&b("5")));
    assert_eq!(m.len(), 2);
}

#[test]
fn parse_first_eq_only() {
    let m = parse_cod_settings(&b("url = a=b=c"));
    assert_eq!(m.get(&b("url")), Some(&b("a=b=c")));
}

#[test]
fn parse_last_occurrence_wins() {
    let m = parse_cod_settings(&b("a = 1\nb = 2\na = 3"));
    assert_eq!(m.get(&b("a")), Some(&b("3")));
    assert_eq!(m.get(&b("b")), Some(&b("2")));
    assert_eq!(m.len(), 2);
}

#[test]
fn parse_handles_crlf_lines() {
    let m = parse_cod_settings(&b("key = value \r\n x = y\r\n"));
    assert_eq!(m.get(&b("key")), Some(&b("value")));
    assert_eq!(m.get(&b("x")), Some(&b("y")));
}

#[test]
fn parse_empty_text_gives_empty_map() {
    let m = parse_cod_settings(&b(""));
    assert_eq!(m.len(), 0);
}

#[test]
fn filter_keeps_matching_keys_case_insensitively() {
    let m = parse_cod_settings(&b("MouseSpeed = 3\nFOV_Scale = 1.2\nvolume = 9\nHDRMode = on"));
    let cats = default_categories();
    let f = filter_settings(&m, &cats);
    assert_eq!(f.get(&b("MouseSpeed")), Some(&b("3")));
    assert_eq!(f.get(&b("FOV_Scale")), Some(&b("1.2")));
    assert_eq!(f.get(&b("HDRMode")), Some(&b("on")));
    assert_eq!(f.get(&b("volume")), None);
    assert_eq!(f.len(), 3);
}

#[test]
fn filter_with_no_categories_is_empty() {
    let m = parse_cod_settings(&b("mouse = 1\nfov = 2"));
    let cats: Vec<Vec<u8>> = Vec::new();
    let f = filter_settings(&m, &cats);
    assert_eq!(f.len(), 0);
}

#[test]
fn filter_keeps_keys_verbatim_from_source() {
    let mut m = SettingsMap::new();
    m.insert(b("ADSSensitivity"), b("0.8"));
    m.insert(b("gamepadEnabled"), b("1"));
    m.insert(b("sprintBehavior"), b("toggle"));
    let f = filter_settings(&m, &default_categories());
    assert_eq!(f.len(), 3);
    assert_eq!(f.get(&b("ADSSensitivity")), Some(&b("0.8")));
    assert_eq!(f.get(&b("gamepadEnabled")), Some(&b("1")));
    assert_eq!(f.get(&b("sprintBehavior")), Some(&b("toggle")));
}

#[test]
fn parse_then_reconstruct_keeps_keys() {
    let text = b("alpha = 1\nbeta = two\ngamma=3");
    let m = parse_cod_settings(&text);
    let mut rebuilt: Vec<u8> = Vec::new();
    for e in m.entries.iter() {
        rebuilt.extend_from_slice(&e.key);
        rebuilt.extend_from_slice(b" = ");
        rebuilt.extend_from_slice(&e.value);
        rebuilt.push(b'\n');
    }
    let m2 = parse_cod_settings(&rebuilt);
    assert_eq!(m2.len(), m.len());
    assert_eq!(m2.get(&b("alpha")), Some(&b("1")));
    assert_eq!(m2.get(&b("beta")), Some(&b("two")));
    assert_eq!(m2.get(&b("gamma")), Some(&b("3")));
}

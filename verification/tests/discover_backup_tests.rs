use cod_settings::backup::{backup_path_for, backup_report, current_timestamp, BackupOutcome};
use cod_settings::discover::{
    accept_install_root, check_cod_default, find_cod_settings, is_settings_file_name,
    marker_path, NotFoundError, ProfileListing,
};

fn b(s: &str) -> Vec<u8> {
    s.as_bytes().to_vec()
}

#[test]
fn settings_file_name_shape() {
    assert!(is_settings_file_name(&b("g.1.0.l.txt0")));
    assert!(is_settings_file_name(&b("g.anything.txt1")));
    assert!(!is_settings_file_name(&b("g.1.0.l.txt2")));
    assert!(!is_settings_file_name(&b("h.1.0.l.txt0")));
    assert!(!is_settings_file_name(&b("config.cfg")));
    assert!(!is_settings_file_name(&b("")));
}

#[test]
fn discovery_collects_matching_files_per_profile() {
    let profiles = vec![
        ProfileListing {
            profile: b("12345"),
            file_names: vec![b("g.1.0.l.txt0"), b("notes.txt"), b("g.1.0.l.txt1")],
        },
        ProfileListing { profile: b("67890"), file_names: vec![b("g.a.txt1")] },
    ];
    let root = Some(b("/home/user/Documents"));
    let found = find_cod_settings(&root, &profiles).unwrap();
    assert_eq!(found.len(), 3);
    assert_eq!(found[0].profile, b("12345"));
    assert_eq!(found[0].file_name, b("g.1.0.l.txt0"));
    assert_eq!(
        found[0].path,
        b("/home/user/Documents/Call of Duty/players/12345/g.1.0.l.txt0")
    );
    assert_eq!(found[2].profile, b("67890"));
    assert_eq!(found[2].file_name, b("g.a.txt1"));
}

#[test]
fn discovery_with_no_matches_is_an_error_not_an_empty_list() {
    let profiles = vec![ProfileListing {
        profile: b("12345"),
        file_names: vec![b("readme.md"), b("g.wrong.txt2")],
    }];
    let root = Some(b("/home/user/Documents"));
    assert_eq!(
        find_cod_settings(&root, &profiles).unwrap_err(),
        NotFoundError::NoSettingsFiles
    );
    let none: Vec<ProfileListing> = Vec::new();
    assert_eq!(
        find_cod_settings(&root, &none).unwrap_err(),
        NotFoundError::NoSettingsFiles
    );
}

#[test]
fn discovery_without_documents_root_is_an_error() {
    let profiles: Vec<ProfileListing> = Vec::new();
    assert_eq!(
        find_cod_settings(&None, &profiles).unwrap_err(),
        NotFoundError::DocumentsDirMissing
    );
}

#[test]
fn default_install_root_requires_the_marker() {
    let found = check_cod_default(true).unwrap();
    assert_eq!(
        found,
        b("C:/Program Files (x86)/Steam/steamapps/common/Call of Duty")
    );
    assert_eq!(check_cod_default(false), None);
}

#[test]
fn chosen_folder_requires_the_marker_too() {
    assert_eq!(accept_install_root(&b("/games/cod"), true), Some(b("/games/cod")));
    assert_eq!(accept_install_root(&b("/games/cod"), false), None);
    assert_eq!(marker_path(&b("/games/cod")), b("/games/cod/cod.exe"));
}

#[test]
fn backup_destination_appends_marker_and_timestamp() {
    assert_eq!(
        backup_path_for(&b("/p/g.1.txt0"), &b("20240131_235959")),
        b("/p/g.1.txt0.bak_20240131_235959")
    );
}

#[test]
fn backup_report_counts_successes_and_collects_errors() {
    let outcomes = vec![
        BackupOutcome { file_name: b("g.1.txt0"), error: None },
        BackupOutcome { file_name: b("g.2.txt1"), error: Some(b("permission denied")) },
    ];
    let report = backup_report(&outcomes);
    assert_eq!(report.success_count, 1);
    assert_eq!(report.errors.len(), 1);
    assert_eq!(report.errors[0], b("g.2.txt1: permission denied"));
}

#[test]
fn timestamp_is_sortable_second_resolution() {
    let ts = current_timestamp();
    assert_eq!(ts.len(), 15);
    assert_eq!(ts[8], b'_');
    for (i, byte) in ts.iter().enumerate() {
        if i != 8 {
            assert!(byte.is_ascii_digit());
        }
    }
}

#[test]
fn backup_report_of_no_outcomes_is_empty() {
    let outcomes: Vec<BackupOutcome> = Vec::new();
    let report = backup_report(&outcomes);
    assert_eq!(report.success_count, 0);
    assert_eq!(report.errors.len(), 0);
}

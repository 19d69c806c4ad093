use daytoday::ai::models_url;
use daytoday::attachments::{
    add_attachment, attachment_location, create_attachment_folder, delete_attachment,
    delete_attachment_folder, folder_files_to_delete, folder_to_delete, link_note_attachment,
    migration_step, migration_tally, move_attachment, new_folder_name, plan_folder_rename,
    record_downloaded_attachment, rename_attachment_folder, trim_text, unlink_note_attachment,
    DownloadRecord, MigrationStep,
};
use daytoday::models::AppData;
use daytoday::storage::{migrate_large_ids, needs_configured_reload};
use daytoday::commands::{add_question, cycle_question, MAX_SAFE_ID};

fn store() -> AppData {
    let mut d = AppData::default();
    add_attachment(&mut d, 1, "a.txt".into(), 10);
    add_attachment(&mut d, 2, "b.txt".into(), 20);
    d
}

#[test]
fn trimming_uses_unicode_white_space() {
    assert_eq!(trim_text("  docs \t"), "docs");
    assert_eq!(trim_text("\u{3000}资料\u{a0}"), "资料");
    assert_eq!(trim_text(" \n "), "");
    assert_eq!(trim_text("a b"), "a b");
}

#[test]
fn create_folder_checks_name() {
    let mut d = store();
    assert_eq!(create_attachment_folder(&mut d, "   ").unwrap_err(), "文件夹名称不能为空");
    assert!(create_attachment_folder(&mut d, " work ").is_ok());
    assert_eq!(d.folders, vec!["work".to_string()]);
    assert_eq!(create_attachment_folder(&mut d, "work").unwrap_err(), "文件夹已存在: work");
    assert_eq!(new_folder_name(&d, " home").unwrap(), "home");
    assert_eq!(d.folders.len(), 1);
}

#[test]
fn rename_folder_moves_its_attachments() {
    let mut d = store();
    create_attachment_folder(&mut d, "old").unwrap();
    move_attachment(&mut d, 1, "old".into());
    assert_eq!(rename_attachment_folder(&mut d, "", "x").unwrap_err(), "原文件夹名不能为空");
    assert_eq!(rename_attachment_folder(&mut d, "old", " ").unwrap_err(), "新文件夹名不能为空");
    assert_eq!(rename_attachment_folder(&mut d, "nope", "x").unwrap_err(), "文件夹不存在: nope");
    create_attachment_folder(&mut d, "taken").unwrap();
    assert_eq!(rename_attachment_folder(&mut d, "old", "taken").unwrap_err(), "文件夹已存在: taken");
    assert!(plan_folder_rename(&d, "old", " old ").unwrap().is_none());
    assert!(rename_attachment_folder(&mut d, "old", "new").is_ok());
    assert_eq!(d.folders, vec!["new".to_string(), "taken".to_string()]);
    assert_eq!(d.attachments[0].folder, "new");
    assert_eq!(d.attachments[1].folder, "");
}

#[test]
fn delete_folder_modes() {
    let mut d = store();
    create_attachment_folder(&mut d, "f").unwrap();
    move_attachment(&mut d, 2, "f".into());
    assert_eq!(folder_to_delete(&d, "g").unwrap_err(), "文件夹不存在: g");
    assert_eq!(delete_attachment_folder(&mut d, " ", "delete").unwrap_err(), "文件夹名不能为空");
    assert_eq!(folder_files_to_delete(&d, &"f".to_string()), vec!["b.txt".to_string()]);
    let mut kept = d.clone();
    assert!(delete_attachment_folder(&mut kept, "f", "move_root").is_ok());
    assert_eq!(kept.attachments.len(), 2);
    assert_eq!(kept.attachments[1].folder, "");
    assert!(kept.folders.is_empty());
    assert!(delete_attachment_folder(&mut d, "f", "delete").is_ok());
    assert_eq!(d.attachments.len(), 1);
    assert_eq!(d.attachments[0].filename, "a.txt");
    assert!(d.folders.is_empty());
}

#[test]
fn links_between_notes_and_attachments() {
    let mut d = store();
    link_note_attachment(&mut d, 1, 7);
    link_note_attachment(&mut d, 1, 7);
    link_note_attachment(&mut d, 1, 8);
    assert_eq!(d.attachments[0].note_ids, vec![7, 8]);
    unlink_note_attachment(&mut d, 1, 7);
    assert_eq!(d.attachments[0].note_ids, vec![8]);
    link_note_attachment(&mut d, 99, 1);
    assert!(d.attachments[1].note_ids.is_empty());
}

#[test]
fn records_add_move_delete() {
    let mut d = store();
    assert_eq!(d.attachments[0].size, 10);
    assert_eq!(d.attachments[0].date.len(), 10);
    move_attachment(&mut d, 2, "docs".into());
    assert_eq!(d.folders, vec!["docs".to_string()]);
    assert_eq!(attachment_location(&d, 2), Some(("docs".to_string(), "b.txt".to_string())));
    move_attachment(&mut d, 2, String::new());
    assert_eq!(d.folders, vec!["docs".to_string()]);
    assert_eq!(attachment_location(&d, 3), None);
    delete_attachment(&mut d, 1);
    assert_eq!(d.attachments.len(), 1);
    assert_eq!(d.attachments[0].id, 2);
}

#[test]
fn downloaded_files_are_recorded_once() {
    let mut d = store();
    assert!(matches!(record_downloaded_attachment(&mut d, "a.txt".into(), String::new(), 9, 5), DownloadRecord::Unchanged));
    match record_downloaded_attachment(&mut d, "a.txt".into(), "x".into(), 9, 5) {
        DownloadRecord::Moved(old) => assert_eq!(old, ""),
        _ => panic!("the record should move"),
    }
    assert_eq!(d.attachments[0].folder, "x");
    assert!(d.folders.is_empty());
    assert!(matches!(record_downloaded_attachment(&mut d, "c.txt".into(), "y".into(), 9, 5), DownloadRecord::Added));
    assert_eq!(d.attachments.len(), 3);
    assert_eq!(d.attachments[2].id, 9);
    assert_eq!(d.attachments[2].size, 5);
    assert_eq!(d.folders, vec!["y".to_string()]);
}

#[test]
fn migration_counts() {
    let steps = vec![MigrationStep::Moved, MigrationStep::Absent, MigrationStep::Kept, MigrationStep::Moved];
    let r = migration_tally("o".into(), "n".into(), &steps, "n/_bak".into());
    assert_eq!((r.moved, r.skipped), (2, 1));
    assert_eq!(r.backup_dir, "n/_bak");
    let r2 = migration_tally("o".into(), "n".into(), &vec![MigrationStep::Moved], "n/_bak".into());
    assert_eq!(r2.backup_dir, "");
    assert_eq!(r2.old_dir, "o");
}

#[test]
fn large_ids_are_renumbered() {
    let mut d = AppData::default();
    assert!(!migrate_large_ids(&mut d, 5));
    d.notes[0].id = MAX_SAFE_ID + 1;
    d.clips.push(daytoday::models::Clip { id: 3, title: String::new(), url: String::new() });
    assert!(migrate_large_ids(&mut d, 1_700_000_000_000_000));
    assert_eq!(d.notes[0].id, 1_700_000_000_000_000);
    assert_eq!(d.clips[0].id, 3);
}

#[test]
fn configured_data_dir_reload() {
    assert!(needs_configured_reload("", "D:/data"));
    assert!(!needs_configured_reload("D:/data", "D:/data"));
    assert!(!needs_configured_reload("D:/data", ""));
}

#[test]
fn model_list_address() {
    assert_eq!(models_url("http://localhost:1234/v1"), "http://localhost:1234/models");
    assert_eq!(models_url("https://api.x.com/v1/"), "https://api.x.com/models");
    assert_eq!(models_url("https://api.x.com/v1/v1//"), "https://api.x.com/models");
    assert_eq!(models_url("https://api.x.com/api"), "https://api.x.com/api/models");
}

#[test]
fn trimming_twice_is_trimming_once() {
    for s in ["  a  ", "\u{2003}x\u{2003}", "", " \t"] {
        assert_eq!(trim_text(&trim_text(s)), trim_text(s));
    }
}

#[test]
fn link_then_unlink_restores_links() {
    let mut d = store();
    link_note_attachment(&mut d, 2, 4);
    let before: Vec<u64> = d.attachments[1].note_ids.clone();
    link_note_attachment(&mut d, 2, 5);
    unlink_note_attachment(&mut d, 2, 5);
    assert_eq!(d.attachments[1].note_ids, before);
}

#[test]
fn renamed_folder_replaces_the_old_name() {
    let mut d = store();
    create_attachment_folder(&mut d, "a").unwrap();
    create_attachment_folder(&mut d, "b").unwrap();
    rename_attachment_folder(&mut d, "a", "c").unwrap();
    assert!(d.folders.contains(&"c".to_string()));
    assert!(!d.folders.contains(&"a".to_string()));
    assert_eq!(create_attachment_folder(&mut d, "c").unwrap_err(), "文件夹已存在: c");
}

#[test]
fn migration_steps() {
    assert!(matches!(migration_step(false, true), MigrationStep::Absent));
    assert!(matches!(migration_step(true, true), MigrationStep::Kept));
    assert!(matches!(migration_step(true, false), MigrationStep::Moved));
}

#[test]
fn question_ids_are_renumbered_too() {
    let mut d = AppData::default();
    add_question(&mut d, MAX_SAFE_ID + 5, "q".into(), String::new(), vec![]);
    cycle_question(&mut d, MAX_SAFE_ID + 5, MAX_SAFE_ID + 6);
    assert!(migrate_large_ids(&mut d, 42));
    assert_eq!(d.questions[0].id, 42);
    assert_eq!(d.questions[0].versions[0].id, 43);
    assert_eq!(d.questions[0].versions[0].q_id, 44);
}

#[test]
fn renewed_ids_are_distinct() {
    let mut d = AppData::default();
    d.notes[0].id = MAX_SAFE_ID + 1;
    let mut second = d.notes[0].clone();
    second.id = u64::MAX;
    d.notes.push(second);
    d.clips.push(daytoday::models::Clip { id: MAX_SAFE_ID + 2, title: String::new(), url: String::new() });
    d.clips.push(daytoday::models::Clip { id: 7, title: String::new(), url: String::new() });
    assert!(migrate_large_ids(&mut d, 1000));
    assert_eq!(d.notes[0].id, 1000);
    assert_eq!(d.notes[1].id, 1001);
    assert_eq!(d.clips[0].id, 1002);
    assert_eq!(d.clips[1].id, 7);
}

use daytoday::commands::{
    add_clip, add_flashcard, add_note, add_question, add_task, add_task_subtask, cycle_question,
    decimal_text, delete_note, delete_question, delete_task, delete_task_subtask, gen_id, move_task,
    push_version, toggle_task_subtask, update_clip, update_flashcard, update_note, update_question,
    update_question_note, update_task, MAX_SAFE_ID,
};
use daytoday::models::{
    add_new_only, add_new_summaries, apply_sync_scope, default_true, merge_by_id, merge_summaries,
    AppData, Clip, Note, Question, QuestionStatus, Summary, Task, TaskPriority, WebdavConfig,
};

fn note(id: u64, text: &str) -> Note {
    Note { id, text: text.to_string(), tags: vec![], time: String::new(), date: String::new() }
}

fn summary(title: &str, content: &str) -> Summary {
    Summary { title: title.to_string(), content: content.to_string(), tag: String::new(), count: 1 }
}

fn empty_data() -> AppData {
    let mut d = AppData::default();
    d.notes.clear();
    d.summaries.clear();
    d
}

#[test]
fn status_cycle_comes_back_after_three_steps() {
    let s = QuestionStatus::Open;
    assert_eq!(s.next(), QuestionStatus::InProgress);
    assert_eq!(s.next().next(), QuestionStatus::Answered);
    assert_eq!(s.next().next().next(), QuestionStatus::Open);
}

#[test]
fn status_labels() {
    assert_eq!(QuestionStatus::Open.label(), "待解决");
    assert_eq!(QuestionStatus::InProgress.label(), "进行中");
    assert_eq!(QuestionStatus::Answered.label(), "已解答");
}

#[test]
fn default_store_has_sample_note_and_settings() {
    let d = AppData::default();
    assert_eq!(d.notes.len(), 1);
    assert_eq!(d.notes[0].id, 1);
    assert_eq!(d.notes[0].tags, vec!["rust".to_string(), "学习".to_string()]);
    assert_eq!(d.notes[0].time, "刚刚");
    assert_eq!(d.notes[0].date.len(), 10);
    assert_eq!(d.summaries.len(), 1);
    assert_eq!(d.summaries[0].title, "Rust 学习路径");
    assert_eq!(d.next_task_id, 1);
    assert_eq!(d.next_fc_id, 1);
    assert_eq!(d.ai_config.url, "http://localhost:1234/v1");
    assert_eq!(d.ai_config.model, "qwen2.5-coder-7b-instruct");
    assert_eq!(d.shortcuts.send_note, "Ctrl+Enter");
    assert_eq!(d.shortcuts.quick_note, "Alt+Q");
    assert!(d.attachments.is_empty());
    assert!(!d.attachment_move_mode);
}

#[test]
fn default_sync_settings() {
    let c = WebdavConfig::default();
    assert_eq!(c.path, "/daytoday-backup/");
    assert!(c.encrypt);
    assert_eq!(c.enc_algorithm, "aes256-gcm");
    assert_eq!(c.sync_mode, "upload");
    assert_eq!(c.pull_mode, "add");
    assert!(c.sync_settings && c.sync_notes && c.sync_attachments);
    assert!(!c.allow_unencrypted_attachment);
    assert!(default_true());
}

#[test]
fn merge_by_id_overwrites_and_appends() {
    let mut local = vec![note(1, "a"), note(2, "b")];
    let remote = vec![note(2, "B"), note(3, "c"), note(2, "B2")];
    merge_by_id(&mut local, remote);
    let texts: Vec<&str> = local.iter().map(|n| n.text.as_str()).collect();
    assert_eq!(texts, vec!["a", "B2", "c"]);
}

#[test]
fn add_new_only_keeps_local_items() {
    let mut local = vec![note(1, "a"), note(2, "b")];
    let remote = vec![note(2, "B"), note(3, "c")];
    add_new_only(&mut local, remote);
    let texts: Vec<&str> = local.iter().map(|n| n.text.as_str()).collect();
    assert_eq!(texts, vec!["a", "b", "c"]);
}

#[test]
fn summaries_merge_by_title() {
    let mut local = vec![summary("x", "1")];
    let remote = vec![summary("x", "2"), summary("y", "3")];
    merge_summaries(&mut local, remote.clone());
    assert_eq!(local.len(), 2);
    assert_eq!(local[0].content, "1");
    assert_eq!(local[1].title, "y");
    let mut local2 = vec![summary("y", "0")];
    add_new_summaries(&mut local2, remote);
    assert_eq!(local2.len(), 2);
    assert_eq!(local2[1].title, "x");
}

#[test]
fn sync_scope_clears_unsynced_but_keeps_attachments() {
    let mut d = AppData::default();
    d.clips.push(Clip { id: 5, title: "t".into(), url: "u".into() });
    daytoday::attachments::add_attachment(&mut d, 9, "f.txt".into(), 3);
    let mut cfg = WebdavConfig::default();
    cfg.sync_notes = false;
    cfg.sync_attachments = false;
    let scoped = apply_sync_scope(d, &cfg);
    assert!(scoped.notes.is_empty());
    assert_eq!(scoped.clips.len(), 1);
    assert_eq!(scoped.summaries.len(), 1);
    assert_eq!(scoped.attachments.len(), 1);
}

#[test]
fn gen_id_packs_time_and_counter() {
    assert_eq!(gen_id(1, 5), 1029);
    assert_eq!(gen_id(1_700_000_000_000, 1234), (1_700_000_000_000u64 << 10) + 234);
    assert_eq!(gen_id(u64::MAX >> 10, 999), MAX_SAFE_ID);
    assert!(gen_id(2, 1) != gen_id(2, 2));
}

#[test]
fn decimal_text_writes_digits() {
    assert_eq!(decimal_text(0), "0");
    assert_eq!(decimal_text(7), "7");
    assert_eq!(decimal_text(1203), "1203");
}

#[test]
fn notes_add_update_delete() {
    let mut d = empty_data();
    add_note(&mut d, 10, "hello".into());
    assert_eq!(d.notes.len(), 1);
    assert_eq!(d.notes[0].id, 10);
    assert_eq!(d.notes[0].text, "hello");
    assert!(d.notes[0].tags.is_empty());
    update_note(&mut d, 10, "bye".into());
    assert_eq!(d.notes[0].text, "bye");
    assert!(delete_note(&mut d, 10).is_ok());
    assert!(d.notes.is_empty());
    let err = delete_note(&mut d, 10).unwrap_err();
    assert_eq!(err, "未找到要删除的记录（id=10），可能已被删除或 id 超出安全范围");
}

#[test]
fn clips_and_flashcards() {
    let mut d = empty_data();
    add_clip(&mut d, 1, "t".into(), "u".into());
    update_clip(&mut d, 1, "t2".into(), "u2".into());
    assert_eq!(d.clips[0].title, "t2");
    assert_eq!(d.clips[0].url, "u2");
    add_flashcard(&mut d, 2, "f".into(), "b".into(), "g".into());
    update_flashcard(&mut d, 2, "F".into(), "B".into(), "G".into());
    assert_eq!(d.flashcards[0].front, "F");
    assert_eq!(d.flashcards[0].back, "B");
    assert_eq!(d.flashcards[0].tag, "G");
    assert_eq!(d.flashcards[0].date.len(), 10);
}

#[test]
fn question_history_records_changes() {
    let mut d = empty_data();
    add_question(&mut d, 1, "q".into(), "d".into(), vec!["t".into()]);
    assert_eq!(d.questions[0].status, QuestionStatus::Open);
    assert!(d.questions[0].versions.is_empty());
    cycle_question(&mut d, 1, 100);
    assert_eq!(d.questions[0].status, QuestionStatus::InProgress);
    assert_eq!(d.questions[0].versions.len(), 1);
    assert_eq!(d.questions[0].versions[0].change_desc, "创建问题");
    assert_eq!(d.questions[0].versions[0].id, 100);
    update_question(&mut d, 1, 101, "q2".into(), "d2".into(), vec!["t".into()]);
    assert_eq!(d.questions[0].versions[1].change_desc, "标题更新；描述更新");
    update_question_note(&mut d, 1, 102, "n".into());
    assert_eq!(d.questions[0].note, "n");
    assert_eq!(d.questions[0].versions[2].change_desc, "备注更新");
    update_question(&mut d, 1, 103, "q2".into(), "d2".into(), vec!["t".into()]);
    assert_eq!(d.questions[0].versions[3].change_desc, "更新了信息");
    cycle_question(&mut d, 1, 104);
    assert_eq!(d.questions[0].versions[4].change_desc, "状态从「进行中」→「已解答」");
    assert_eq!(d.questions[0].versions[4].q_id, 1);
    delete_question(&mut d, 1);
    assert!(d.questions.is_empty());
}

#[test]
fn version_history_is_capped_at_fifty() {
    let mut q = Question {
        id: 1,
        question: "q".into(),
        desc: String::new(),
        note: String::new(),
        status: QuestionStatus::Open,
        tags: vec![],
        created: String::new(),
        date: String::new(),
        versions: vec![],
    };
    for i in 0..60u64 {
        push_version(&mut q, i);
    }
    assert_eq!(q.versions.len(), 50);
    assert_eq!(q.versions[0].id, 10);
    assert_eq!(q.versions[49].id, 59);
}

fn titles(ts: &[Task]) -> Vec<&str> {
    ts.iter().map(|t| t.title.as_str()).collect()
}

#[test]
fn task_board_moves_keep_every_task() {
    let mut d = empty_data();
    add_task(&mut d, "a".into(), "todo");
    add_task(&mut d, "b".into(), "doing");
    add_task(&mut d, "c".into(), "whatever");
    assert_eq!(d.next_task_id, 4);
    assert_eq!(titles(&d.tasks.todo), vec!["a", "c"]);
    assert_eq!(d.tasks.doing[0].id, 2);
    update_task(&mut d, 1, "todo", "A".into(), "high", "2024-01-01".into(), "n".into());
    assert_eq!(d.tasks.todo[0].priority, TaskPriority::High);
    move_task(&mut d, 1, "todo", "done");
    assert_eq!(titles(&d.tasks.todo), vec!["c"]);
    assert_eq!(titles(&d.tasks.done), vec!["A"]);
    assert_eq!(d.tasks.done[0].priority, TaskPriority::Medium);
    move_task(&mut d, 42, "todo", "done");
    assert_eq!(d.tasks.todo.len() + d.tasks.doing.len() + d.tasks.done.len(), 3);
    delete_task(&mut d, 2, "doing");
    assert!(d.tasks.doing.is_empty());
}

#[test]
fn subtasks_add_toggle_delete() {
    let mut d = empty_data();
    add_task(&mut d, "a".into(), "todo");
    add_task_subtask(&mut d, 1, "todo", 7, "s".into());
    assert_eq!(d.tasks.todo[0].subtasks.len(), 1);
    assert!(!d.tasks.todo[0].subtasks[0].done);
    toggle_task_subtask(&mut d, 1, "todo", 7);
    assert!(d.tasks.todo[0].subtasks[0].done);
    toggle_task_subtask(&mut d, 1, "todo", 7);
    assert!(!d.tasks.todo[0].subtasks[0].done);
    delete_task_subtask(&mut d, 1, "todo", 7);
    assert!(d.tasks.todo[0].subtasks.is_empty());
}

#[test]
fn adding_the_same_remote_items_twice_adds_nothing_more() {
    let mut local = vec![note(1, "a")];
    let remote = vec![note(1, "A"), note(2, "b"), note(2, "b2")];
    add_new_only(&mut local, remote.clone());
    assert_eq!(local.len(), 3);
    add_new_only(&mut local, remote);
    assert_eq!(local.len(), 3);
}

#[test]
fn merge_leaves_every_remote_id_present() {
    let mut local = vec![note(1, "a"), note(1, "dup")];
    let remote = vec![note(1, "x"), note(4, "y")];
    merge_by_id(&mut local, remote);
    let ids: Vec<u64> = local.iter().map(|n| n.id).collect();
    assert_eq!(ids, vec![1, 1, 4]);
    assert_eq!(local[0].text, "x");
    assert_eq!(local[1].text, "dup");
}

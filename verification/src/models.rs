//! The data model: notes, summaries, clips, questions with their version
//! history, flashcards, the task board, attachments and the settings.

use vstd::prelude::*;
use vstd::string::*;
use vstd::utf8::*;

verus! {

/// Items that carry a numeric identifier.
pub trait Identifiable {
    spec fn spec_id(&self) -> u64;

    fn id(&self) -> (r: u64)
        ensures
            r == self.spec_id(),
    ;
}

#[derive(Debug, Clone)]
pub struct Note {
    pub id: u64,
    pub text: String,
    pub tags: Vec<String>,
    pub time: String,
    pub date: String,
}

impl Identifiable for Note {
    open spec fn spec_id(&self) -> u64 {
        self.id
    }

    fn id(&self) -> (r: u64) {
        self.id
    }
}

/// The status of a question; it cycles open -> in progress -> answered -> open.
#[derive(Debug, Clone, Copy, PartialEq, Eq, Structural)]
pub enum QuestionStatus {
    Open,
    InProgress,
    Answered,
}

pub open spec fn spec_next_status(s: QuestionStatus) -> QuestionStatus {
    match s {
        QuestionStatus::Open => QuestionStatus::InProgress,
        QuestionStatus::InProgress => QuestionStatus::Answered,
        QuestionStatus::Answered => QuestionStatus::Open,
    }
}

impl QuestionStatus {
    /// The status that follows this one in the cycle.
    pub fn next(&self) -> (r: Self)
        ensures
            r == spec_next_status(*self),
    {
        match self {
            QuestionStatus::Open => QuestionStatus::InProgress,
            QuestionStatus::InProgress => QuestionStatus::Answered,
            QuestionStatus::Answered => QuestionStatus::Open,
        }
    }
}

impl QuestionStatus {
    /// The label shown to the user for this status.
    pub fn label(&self) -> (r: &str)
        ensures
            r@ == status_label(*self),
    {
        match self {
            QuestionStatus::Open => "待解决",
            QuestionStatus::InProgress => "进行中",
            QuestionStatus::Answered => "已解答",
        }
    }
}

pub open spec fn status_label(s: QuestionStatus) -> Seq<char> {
    match s {
        QuestionStatus::Open => "待解决"@,
        QuestionStatus::InProgress => "进行中"@,
        QuestionStatus::Answered => "已解答"@,
    }
}

/// Three steps of `next` come back to the start, and no single step stays put.
pub proof fn lemma_next_status_cycle(s: QuestionStatus)
    ensures
        spec_next_status(spec_next_status(spec_next_status(s))) == s,
        spec_next_status(s) != s,
{
}

#[derive(Debug, Clone)]
pub struct Summary {
    pub title: String,
    pub content: String,
    pub tag: String,
    pub count: u32,
}

#[derive(Debug, Clone)]
pub struct Clip {
    pub id: u64,
    pub title: String,
    pub url: String,
}

impl Identifiable for Clip {
    open spec fn spec_id(&self) -> u64 {
        self.id
    }

    fn id(&self) -> (r: u64) {
        self.id
    }
}

/// One recorded state of a question, appended whenever the question changes.
#[derive(Debug, Clone)]
pub struct Version {
    pub id: u64,
    pub q_id: u64,
    pub timestamp: String,
    pub question: String,
    pub status: QuestionStatus,
    pub desc: String,
    pub note: String,
    pub tags: Vec<String>,
    pub change_desc: String,
}

impl Identifiable for Version {
    open spec fn spec_id(&self) -> u64 {
        self.id
    }

    fn id(&self) -> (r: u64) {
        self.id
    }
}

#[derive(Debug, Clone)]
pub struct Subtask {
    pub id: u64,
    pub text: String,
    pub done: bool,
}

impl Identifiable for Subtask {
    open spec fn spec_id(&self) -> u64 {
        self.id
    }

    fn id(&self) -> (r: u64) {
        self.id
    }
}

#[derive(Debug, Clone)]
pub struct Question {
    pub id: u64,
    pub question: String,
    pub desc: String,
    pub note: String,
    pub status: QuestionStatus,
    pub tags: Vec<String>,
    pub created: String,
    pub date: String,
    pub versions: Vec<Version>,
}

impl Identifiable for Question {
    open spec fn spec_id(&self) -> u64 {
        self.id
    }

    fn id(&self) -> (r: u64) {
        self.id
    }
}

#[derive(Debug, Clone)]
pub struct Flashcard {
    pub id: u64,
    pub front: String,
    pub back: String,
    pub tag: String,
    pub date: String,
}

impl Identifiable for Flashcard {
    open spec fn spec_id(&self) -> u64 {
        self.id
    }

    fn id(&self) -> (r: u64) {
        self.id
    }
}

#[derive(Debug, Clone, Copy, PartialEq, Eq, Structural)]
pub enum TaskPriority {
    High,
    Medium,
    Low,
}

#[derive(Debug, Clone)]
pub struct Task {
    pub id: u64,
    pub title: String,
    pub priority: TaskPriority,
    pub date: String,
    pub note: String,
    pub subtasks: Vec<Subtask>,
}

impl Identifiable for Task {
    open spec fn spec_id(&self) -> u64 {
        self.id
    }

    fn id(&self) -> (r: u64) {
        self.id
    }
}

/// The three columns of the task board.
#[derive(Debug, Clone)]
pub struct TaskBoard {
    pub todo: Vec<Task>,
    pub doing: Vec<Task>,
    pub done: Vec<Task>,
}

#[derive(Debug, Clone)]
pub struct AiConfig {
    pub url: String,
    pub model: String,
    pub key: String,
}

/// Where and how the data is synchronised over WebDAV.
#[derive(Debug, Clone)]
pub struct WebdavConfig {
    pub url: String,
    pub user: String,
    pub pass: String,
    pub path: String,
    pub encrypt: bool,
    pub enc_pass: String,
    pub enc_algorithm: String,
    pub sync_notes: bool,
    pub sync_summaries: bool,
    pub sync_clips: bool,
    pub sync_questions: bool,
    pub sync_flashcards: bool,
    pub sync_tasks: bool,
    pub sync_attachments: bool,
    pub allow_unencrypted_attachment: bool,
    pub sync_mode: String,
    pub sync_interval: i64,
    pub pull_mode: String,
    pub settings_pass: String,
    pub sync_settings: bool,
}

/// The value a missing `sync_settings` flag takes when a stored configuration is read.
pub fn default_true() -> (r: bool)
    ensures
        r,
{
    true
}

#[derive(Debug, Clone)]
pub struct Attachment {
    pub id: u64,
    pub filename: String,
    pub size: u64,
    pub note_ids: Vec<u64>,
    pub folder: String,
    pub created: String,
    pub date: String,
}

impl Identifiable for Attachment {
    open spec fn spec_id(&self) -> u64 {
        self.id
    }

    fn id(&self) -> (r: u64) {
        self.id
    }
}

/// A file found in the remote attachment directory.
#[derive(Debug, Clone)]
pub struct RemoteAttachment {
    pub filename: String,
    pub size: u64,
    pub exists_local: bool,
}

#[derive(Debug, Clone)]
pub struct AttachmentFileStatus {
    pub id: u64,
    pub exists: bool,
}

#[derive(Debug, Clone)]
pub struct ShortcutConfig {
    pub send_note: String,
    pub quick_note: String,
}

#[derive(Debug, Clone)]
pub struct BootstrapConfig {
    pub data_dir: String,
}

#[derive(Debug, Clone)]
pub struct DataDirResult {
    pub old_dir: String,
    pub new_dir: String,
}

/// What moving the attachment directory did: files moved, files skipped
/// because the new directory already held one of that name, and the backup
/// directory made for those (empty when there was no clash).
#[derive(Debug, Clone)]
pub struct AttachmentMigrateResult {
    pub old_dir: String,
    pub new_dir: String,
    pub moved: u32,
    pub skipped: u32,
    pub backup_dir: String,
}

/// The settings that travel to the cloud separately from the data.
#[derive(Debug, Clone)]
pub struct SettingsData {
    pub ai_config: AiConfig,
    pub shortcuts: ShortcutConfig,
}

/// Everything the app stores.
#[derive(Debug, Clone)]
pub struct AppData {
    pub notes: Vec<Note>,
    pub summaries: Vec<Summary>,
    pub clips: Vec<Clip>,
    pub questions: Vec<Question>,
    pub flashcards: Vec<Flashcard>,
    pub attachments: Vec<Attachment>,
    pub tasks: TaskBoard,
    pub next_task_id: u64,
    pub next_fc_id: u64,
    pub ai_config: AiConfig,
    pub webdav_config: WebdavConfig,
    pub shortcuts: ShortcutConfig,
    pub attachment_dir: String,
    pub attachment_move_mode: bool,
    pub folders: Vec<String>,
    pub data_dir: String,
}

impl Default for WebdavConfig {
    /// No server, encryption on with AES-256-GCM, every category synced,
    /// upload mode, pull by adding new items, settings synced.
    fn default() -> (r: Self)
        ensures
            r.url@ == Seq::<char>::empty(),
            r.user@ == Seq::<char>::empty(),
            r.pass@ == Seq::<char>::empty(),
            r.path@ == "/daytoday-backup/"@,
            r.encrypt,
            r.enc_pass@ == Seq::<char>::empty(),
            r.enc_algorithm@ == "aes256-gcm"@,
            r.sync_notes && r.sync_summaries && r.sync_clips && r.sync_questions,
            r.sync_flashcards && r.sync_tasks && r.sync_attachments,
            !r.allow_unencrypted_attachment,
            r.sync_mode@ == "upload"@,
            r.sync_interval == 0,
            r.pull_mode@ == "add"@,
            r.settings_pass@ == Seq::<char>::empty(),
            r.sync_settings,
    {
        WebdavConfig {
            url: String::new(),
            user: String::new(),
            pass: String::new(),
            path: String::from_str("/daytoday-backup/"),
            encrypt: true,
            enc_pass: String::new(),
            enc_algorithm: String::from_str("aes256-gcm"),
            sync_notes: true,
            sync_summaries: true,
            sync_clips: true,
            sync_questions: true,
            sync_flashcards: true,
            sync_tasks: true,
            sync_attachments: true,
            allow_unencrypted_attachment: false,
            sync_mode: String::from_str("upload"),
            sync_interval: 0,
            pull_mode: String::from_str("add"),
            settings_pass: String::new(),
            sync_settings: true,
        }
    }
}

impl Default for ShortcutConfig {
    fn default() -> (r: Self)
        ensures
            r.send_note@ == "Ctrl+Enter"@,
            r.quick_note@ == "Alt+Q"@,
    {
        ShortcutConfig {
            send_note: String::from_str("Ctrl+Enter"),
            quick_note: String::from_str("Alt+Q"),
        }
    }
}

/// The formats in which this library reads the local clock: a date, a date and
/// time, and a date and time fit for a file name.
pub open spec fn clock_format(fmt: Seq<char>) -> bool {
    fmt == "%Y-%m-%d"@ || fmt == "%Y-%m-%dT%H:%M:%S"@ || fmt == "%Y%m%d_%H%M%S"@
}

/// The fewest characters a clock reading in `fmt` has: a year of at least four
/// digits and two digits for each further field, with the separators.
pub open spec fn clock_min_len(fmt: Seq<char>) -> nat {
    if fmt == "%Y-%m-%d"@ {
        10
    } else if fmt == "%Y-%m-%dT%H:%M:%S"@ {
        19
    } else {
        15
    }
}

/// The local time now, written by chrono's `Local::now().format(fmt)`.
/// Claimed, for the three formats used here: the text is ASCII and has at least
/// the digits and separators that chrono's format table documents for them
/// (`%Y` gives at least four digits, the other fields two each). Its value is
/// the clock's and is not stated.
#[verifier::external_body]
pub(crate) fn local_now(fmt: &str) -> (r: String)
    requires
        clock_format(fmt@),
    ensures
        is_ascii_chars(r@),
        r@.len() >= clock_min_len(fmt@),
{
    chrono::Local::now().format(fmt).to_string()
}

/// The local time now as `%Y-%m-%dT%H:%M:%S`.
pub(crate) fn chrono_now() -> (r: String)
    ensures
        is_ascii_chars(r@),
        r@.len() >= 19,
{
    let fmt = "%Y-%m-%dT%H:%M:%S";
    proof {
        reveal_strlit("%Y-%m-%dT%H:%M:%S");
        reveal_strlit("%Y-%m-%d");
        assert(fmt@.len() != "%Y-%m-%d"@.len());
    }
    local_now(fmt)
}

impl Default for AppData {
    /// A first-run store: one sample note dated today and one sample summary,
    /// empty collections otherwise, counters at 1, a local AI endpoint, and the
    /// default sync and shortcut settings.
    fn default() -> (r: Self)
        ensures
            r.notes@.len() == 1,
            r.notes@[0].id == 1,
            r.notes@[0].text@ == "学习 Rust 所有权机制\n核心：每个值有且只有一个所有者"@,
            r.notes@[0].tags@.len() == 2,
            r.notes@[0].tags@[0]@ == "rust"@,
            r.notes@[0].tags@[1]@ == "学习"@,
            r.notes@[0].time@ == "刚刚"@,
            r.notes@[0].date@.len() == 10,
            is_ascii_chars(r.notes@[0].date@),
            r.summaries@.len() == 1,
            r.summaries@[0].title@ == "Rust 学习路径"@,
            r.summaries@[0].content@ == "所有权 → 生命周期 → 异步"@,
            r.summaries@[0].tag@ == "rust"@,
            r.summaries@[0].count == 1,
            r.clips@.len() == 0,
            r.questions@.len() == 0,
            r.flashcards@.len() == 0,
            r.attachments@.len() == 0,
            r.tasks.todo@.len() == 0,
            r.tasks.doing@.len() == 0,
            r.tasks.done@.len() == 0,
            r.next_task_id == 1,
            r.next_fc_id == 1,
            r.ai_config.url@ == "http://localhost:1234/v1"@,
            r.ai_config.model@ == "qwen2.5-coder-7b-instruct"@,
            r.ai_config.key@ == Seq::<char>::empty(),
            r.webdav_config.path@ == "/daytoday-backup/"@,
            r.webdav_config.enc_algorithm@ == "aes256-gcm"@,
            r.webdav_config.encrypt,
            r.shortcuts.send_note@ == "Ctrl+Enter"@,
            r.shortcuts.quick_note@ == "Alt+Q"@,
            r.attachment_dir@ == Seq::<char>::empty(),
            !r.attachment_move_mode,
            r.folders@.len() == 0,
            r.data_dir@ == Seq::<char>::empty(),
    {
        let now = chrono_now();
        let today_str = now.as_str().substring_ascii(0, 10);
        let today = String::from_str(today_str);
        let note = Note {
            id: 1,
            text: String::from_str("学习 Rust 所有权机制\n核心：每个值有且只有一个所有者"),
            tags: vec![String::from_str("rust"), String::from_str("学习")],
            time: String::from_str("刚刚"),
            date: today,
        };
        let summary = Summary {
            title: String::from_str("Rust 学习路径"),
            content: String::from_str("所有权 → 生命周期 → 异步"),
            tag: String::from_str("rust"),
            count: 1,
        };
        proof {
            assert(is_ascii_chars(now@.subrange(0, 10)));
        }
        AppData {
            notes: vec![note],
            summaries: vec![summary],
            clips: Vec::new(),
            questions: Vec::new(),
            flashcards: Vec::new(),
            attachments: Vec::new(),
            tasks: TaskBoard { todo: Vec::new(), doing: Vec::new(), done: Vec::new() },
            next_task_id: 1,
            next_fc_id: 1,
            ai_config: AiConfig {
                url: String::from_str("http://localhost:1234/v1"),
                model: String::from_str("qwen2.5-coder-7b-instruct"),
                key: String::new(),
            },
            webdav_config: WebdavConfig::default(),
            shortcuts: ShortcutConfig::default(),
            attachment_dir: String::new(),
            attachment_move_mode: false,
            folders: Vec::new(),
            data_dir: String::new(),
        }
    }
}

/// The identifiers of a sequence of items, in order.
pub open spec fn ids_of<T: Identifiable>(s: Seq<T>) -> Seq<u64> {
    s.map_values(|x: T| x.spec_id())
}

/// `p` is the first position in `s` that holds its identifier.
pub open spec fn first_with_id<T: Identifiable>(s: Seq<T>, p: int) -> bool {
    forall|q: int| 0 <= q < p ==> s[q].spec_id() != s[p].spec_id()
}

/// `k` is the last position in `s` whose item has identifier `id`.
pub open spec fn last_with_id<T: Identifiable>(s: Seq<T>, k: int, id: u64) -> bool {
    &&& 0 <= k < s.len()
    &&& s[k].spec_id() == id
    &&& forall|k2: int| k < k2 < s.len() ==> s[k2].spec_id() != id
}

/// The items of `remote` whose identifier does not occur in `local`.
pub open spec fn new_by_id<T: Identifiable>(local: Seq<T>, remote: Seq<T>) -> Seq<T> {
    remote.filter(|x: T| !ids_of(local).contains(x.spec_id()))
}

/// `after` is `before` merged with `remote` by identifier: an item of
/// `before` whose identifier occurs in `remote` is overwritten by the last
/// remote item with that identifier (at the first position holding it), and
/// each remote item whose identifier was not in `before` is appended, in order.
pub open spec fn merged_by_id<T: Identifiable>(before: Seq<T>, remote: Seq<T>, after: Seq<T>) -> bool {
    &&& after.len() == before.len() + new_by_id(before, remote).len()
    &&& forall|p: int|
        0 <= p < before.len() ==> {
            let id = #[trigger] before[p].spec_id();
            if first_with_id(before, p) && ids_of(remote).contains(id) {
                exists|k: int| last_with_id(remote, k, id) && after[p] == remote[k]
            } else {
                after[p] == before[p]
            }
        }
    &&& after.skip(before.len() as int) == new_by_id(before, remote)
}

/// `after` is `before` followed by the items of `remote` whose identifier is
/// not in `before`, in order.
pub open spec fn added_new<T: Identifiable>(before: Seq<T>, remote: Seq<T>, after: Seq<T>) -> bool {
    after == before + new_by_id(before, remote)
}

/// Position of the first occurrence of `id` in `ids`.
fn find_id(ids: &Vec<u64>, id: u64) -> (r: Option<usize>)
    ensures
        match r {
            Some(p) => p < ids@.len() && ids@[p as int] == id && forall|q: int|
                0 <= q < p ==> ids@[q] != id,
            None => !ids@.contains(id),
        },
{
    let mut i: usize = 0;
    while i < ids.len()
        invariant
            i <= ids@.len(),
            forall|q: int| 0 <= q < i ==> ids@[q] != id,
        decreases ids@.len() - i,
    {
        if ids[i] == id {
            return Some(i);
        }
        i += 1;
    }
    None
}

/// The identifiers of `items`, in order.
fn collect_ids<T: Identifiable>(items: &Vec<T>) -> (r: Vec<u64>)
    ensures
        r@ == ids_of(items@),
{
    let mut r: Vec<u64> = Vec::new();
    let mut i: usize = 0;
    while i < items.len()
        invariant
            i <= items@.len(),
            r@ == ids_of(items@.take(i as int)),
        decreases items@.len() - i,
    {
        r.push(items[i].id());
        i += 1;
        assert(ids_of(items@.take(i as int)) =~= ids_of(items@.take(i - 1)).push(items@[i - 1].spec_id()));
    }
    assert(items@.take(i as int) =~= items@);
    r
}

/// Merges `remote` into `local` by identifier: an item of `local` whose
/// identifier occurs in `remote` is overwritten by the last remote item with
/// that identifier (at the first local position holding it), and each remote
/// item whose identifier was not in `local` is appended, in order. Where
/// each side has distinct identifiers, so does the result, and its
/// identifiers are those of both sides.
pub fn merge_by_id<T: Identifiable>(local: &mut Vec<T>, remote: Vec<T>)
    ensures
        merged_by_id(old(local)@, remote@, final(local)@),
        ids_distinct(old(local)@) && ids_distinct(remote@) ==> {
            &&& ids_distinct(final(local)@)
            &&& forall|x: u64|
                #[trigger] ids_of(final(local)@).contains(x) <==> ids_of(old(local)@).contains(x)
                    || ids_of(remote@).contains(x)
        },
{
    let ghost old_local = local@;
    let ghost orig = remote@;
    let n = local.len();
    let ids = collect_ids(local);
    let ghost pred = |x: T| !ids_of(old_local).contains(x.spec_id());
    let mut rest = remote;
    let m = rest.len();
    let mut j: usize = 0;
    while j < m
        invariant
            j <= m == orig.len(),
            rest@ == orig.skip(j as int),
            n == old_local.len(),
            ids@ == ids_of(old_local),
            pred == (|x: T| !ids_of(old_local).contains(x.spec_id())),
            local@.len() == n + orig.take(j as int).filter(pred).len(),
            forall|p: int|
                0 <= p < n ==> {
                    let id = #[trigger] old_local[p].spec_id();
                    if first_with_id(old_local, p) && ids_of(orig.take(j as int)).contains(id) {
                        exists|k: int| last_with_id(orig.take(j as int), k, id) && local@[p] == orig[k]
                    } else {
                        local@[p] == old_local[p]
                    }
                },
            local@.skip(n as int) == orig.take(j as int).filter(pred),
        decreases m - j,
    {
        proof {
            assert(rest@[0] == orig[j as int]);
        }
        let item = rest.remove(0);
        proof {
            assert(rest@ =~= orig.skip(j + 1));
        }
        let id = item.id();
        let ghost before = local@;
        proof {
            crate::seq_facts::lemma_filter_take_step(orig, j as int, pred);
            assert(ids_of(orig.take(j + 1)) =~= ids_of(orig.take(j as int)).push(id));
        }
        match find_id(&ids, id) {
            Some(p) => {
                local.set(p, item);
                proof {
                    assert(!pred(orig[j as int]));
                    assert(local@.skip(n as int) =~= before.skip(n as int));
                    assert forall|q: int| 0 <= q < n implies {
                        let qid = #[trigger] old_local[q].spec_id();
                        if first_with_id(old_local, q) && ids_of(orig.take(j + 1)).contains(qid) {
                            exists|k: int| last_with_id(orig.take(j + 1), k, qid) && local@[q] == orig[k]
                        } else {
                            local@[q] == old_local[q]
                        }
                    } by {
                        let qid = old_local[q].spec_id();
                        if q == p {
                            assert(ids@[q] == qid);
                            assert(first_with_id(old_local, q)) by {
                                assert forall|r: int| 0 <= r < q implies old_local[r].spec_id() != old_local[q].spec_id() by {
                                    assert(ids@[r] == old_local[r].spec_id());
                                }
                            }
                            assert(last_with_id(orig.take(j + 1), j as int, qid));
                            assert(ids_of(orig.take(j + 1))[j as int] == qid);
                        } else {
                            if qid == id && first_with_id(old_local, q) {
                                assert(ids@[q] == qid);
                                assert(ids@[p as int] == id);
                                if q < p {
                                } else {
                                    assert(old_local[p as int].spec_id() == id);
                                }
                            }
                            if first_with_id(old_local, q) && ids_of(orig.take(j + 1)).contains(qid) {
                                assert(qid != id) by {
                                    if qid == id {
                                        assert(ids@[q] == qid);
                                        assert(ids@[p as int] == id);
                                        assert(old_local[p as int].spec_id() == id);
                                    }
                                }
                                let w = choose|w: int| 0 <= w < j + 1 && #[trigger] ids_of(orig.take(j + 1))[w] == qid;
                                assert(ids_of(orig.take(j as int))[w] == qid);
                                assert(ids_of(orig.take(j as int)).contains(qid));
                                let k = choose|k: int|
                                    last_with_id(orig.take(j as int), k, qid) && before[q] == orig[k];
                                assert(last_with_id(orig.take(j + 1), k, qid));
                            } else if first_with_id(old_local, q) {
                                if ids_of(orig.take(j as int)).contains(qid) {
                                    let w = choose|w: int| 0 <= w < j && #[trigger] ids_of(orig.take(j as int))[w] == qid;
                                    assert(ids_of(orig.take(j + 1))[w] == qid);
                                }
                            }
                        }
                    }
                }
            },
            None => {
                local.push(item);
                proof {
                    assert(pred(orig[j as int]));
                    assert(local@.skip(n as int) =~= before.skip(n as int).push(orig[j as int]));
                    assert forall|q: int| 0 <= q < n implies {
                        let qid = #[trigger] old_local[q].spec_id();
                        if first_with_id(old_local, q) && ids_of(orig.take(j + 1)).contains(qid) {
                            exists|k: int| last_with_id(orig.take(j + 1), k, qid) && local@[q] == orig[k]
                        } else {
                            local@[q] == old_local[q]
                        }
                    } by {
                        let qid = old_local[q].spec_id();
                        assert(ids@[q] == qid);
                        assert(qid != id);
                        if ids_of(orig.take(j + 1)).contains(qid) {
                            let w = choose|w: int| 0 <= w < j + 1 && #[trigger] ids_of(orig.take(j + 1))[w] == qid;
                            assert(ids_of(orig.take(j as int))[w] == qid);
                            assert(ids_of(orig.take(j as int)).contains(qid));
                            if first_with_id(old_local, q) {
                                let k = choose|k: int|
                                    last_with_id(orig.take(j as int), k, qid) && before[q] == orig[k];
                                assert(last_with_id(orig.take(j + 1), k, qid));
                            }
                        } else {
                            if ids_of(orig.take(j as int)).contains(qid) {
                                let w = choose|w: int| 0 <= w < j && #[trigger] ids_of(orig.take(j as int))[w] == qid;
                                assert(ids_of(orig.take(j + 1))[w] == qid);
                            }
                        }
                    }
                }
            },
        }
        j += 1;
    }
    proof {
        crate::seq_facts::lemma_take_full(orig);
        assert(new_by_id(old_local, orig) == orig.filter(pred));
        if ids_distinct(old_local) && ids_distinct(orig) {
            lemma_merge_ids(old_local, orig, local@);
        }
    }
}

/// Appends to `local` each item of `remote` whose identifier was not in
/// `local`; existing items are left as they are.
pub fn add_new_only<T: Identifiable>(local: &mut Vec<T>, remote: Vec<T>)
    ensures
        added_new(old(local)@, remote@, final(local)@),
{
    let ghost old_local = local@;
    let ghost orig = remote@;
    let n = local.len();
    let ids = collect_ids(local);
    let ghost pred = |x: T| !ids_of(old_local).contains(x.spec_id());
    let mut rest = remote;
    let m = rest.len();
    let mut j: usize = 0;
    while j < m
        invariant
            j <= m == orig.len(),
            rest@ == orig.skip(j as int),
            n == old_local.len(),
            ids@ == ids_of(old_local),
            pred == (|x: T| !ids_of(old_local).contains(x.spec_id())),
            local@ == old_local + orig.take(j as int).filter(pred),
        decreases m - j,
    {
        proof {
            assert(rest@[0] == orig[j as int]);
            crate::seq_facts::lemma_filter_take_step(orig, j as int, pred);
        }
        let item = rest.remove(0);
        proof {
            assert(rest@ =~= orig.skip(j + 1));
        }
        if find_id(&ids, item.id()).is_none() {
            local.push(item);
        }
        j += 1;
    }
    proof {
        crate::seq_facts::lemma_take_full(orig);
        assert(new_by_id(old_local, orig) == orig.filter(pred));
    }
}

/// After adding the new items of `remote`, every identifier of `remote` is
/// present, so adding them again adds nothing.
pub proof fn lemma_add_new_idempotent<T: Identifiable>(before: Seq<T>, remote: Seq<T>)
    ensures
        forall|k: int|
            0 <= k < remote.len() ==> ids_of(before + new_by_id(before, remote)).contains(
                #[trigger] remote[k].spec_id(),
            ),
        new_by_id(before + new_by_id(before, remote), remote).len() == 0,
{
    let pred = |x: T| !ids_of(before).contains(x.spec_id());
    let after = before + new_by_id(before, remote);
    assert forall|k: int| 0 <= k < remote.len() implies ids_of(after).contains(
        #[trigger] remote[k].spec_id(),
    ) by {
        let id = remote[k].spec_id();
        if ids_of(before).contains(id) {
            let w = choose|w: int| 0 <= w < ids_of(before).len() && ids_of(before)[w] == id;
            assert(ids_of(after)[w] == id);
        } else {
            assert(pred(remote[k]));
            remote.lemma_filter_contains(pred, k);
            let f = remote.filter(pred);
            let w = choose|w: int| 0 <= w < f.len() && f[w] == remote[k];
            assert(after[before.len() + w] == remote[k]);
            assert(ids_of(after)[before.len() + w] == id);
        }
    }
    let pred2 = |x: T| !ids_of(after).contains(x.spec_id());
    assert forall|k: int| 0 <= k < remote.len() implies !pred2(#[trigger] remote[k]) by {
        assert(ids_of(after).contains(remote[k].spec_id()));
    }
    lemma_filter_none(remote, pred2);
}

/// Filtering by a predicate that no element meets leaves nothing.
proof fn lemma_filter_none<A>(s: Seq<A>, pred: spec_fn(A) -> bool)
    requires
        forall|k: int| 0 <= k < s.len() ==> !pred(#[trigger] s[k]),
    ensures
        s.filter(pred).len() == 0,
    decreases s.len(),
{
    reveal(Seq::filter);
    if s.len() > 0 {
        assert forall|k: int| 0 <= k < s.drop_last().len() implies !pred(#[trigger] s.drop_last()[k]) by {
            assert(s.drop_last()[k] == s[k]);
        }
        lemma_filter_none(s.drop_last(), pred);
    }
}

/// After a merge by identifier, every identifier of `remote` is present.
pub proof fn lemma_merge_keeps_remote_ids<T: Identifiable>(before: Seq<T>, remote: Seq<T>, after: Seq<T>)
    requires
        merged_by_id(before, remote, after),
    ensures
        forall|k: int| 0 <= k < remote.len() ==> ids_of(after).contains(#[trigger] remote[k].spec_id()),
{
    let pred = |x: T| !ids_of(before).contains(x.spec_id());
    assert(new_by_id(before, remote) == remote.filter(pred));
    assert forall|k: int| 0 <= k < remote.len() implies ids_of(after).contains(
        #[trigger] remote[k].spec_id(),
    ) by {
        let id = remote[k].spec_id();
        if ids_of(before).contains(id) {
            let w = choose|w: int| 0 <= w < ids_of(before).len() && ids_of(before)[w] == id;
            let p = first_position(before, w);
            assert(before[p].spec_id() == id);
            assert(ids_of(remote)[k] == id);
            if first_with_id(before, p) && ids_of(remote).contains(id) {
                let k2 = choose|k2: int| last_with_id(remote, k2, id) && after[p] == remote[k2];
                assert(ids_of(after)[p] == id);
            }
        } else {
            assert(pred(remote[k]));
            remote.lemma_filter_contains(pred, k);
            let f = remote.filter(pred);
            let w = choose|w: int| 0 <= w < f.len() && f[w] == remote[k];
            assert(after.skip(before.len() as int)[w] == remote[k]);
            assert(after[before.len() + w] == remote[k]);
            assert(ids_of(after)[before.len() + w] == id);
        }
    }
}

/// No two items of `s` share an identifier.
pub open spec fn ids_distinct<T: Identifiable>(s: Seq<T>) -> bool {
    forall|i: int, j: int| 0 <= i < j < s.len() ==> #[trigger] s[i].spec_id() != #[trigger] s[j].spec_id()
}

/// Filtering keeps identifiers distinct.
proof fn lemma_filter_ids_distinct<T: Identifiable>(s: Seq<T>, pred: spec_fn(T) -> bool)
    requires
        ids_distinct(s),
    ensures
        ids_distinct(s.filter(pred)),
    decreases s.len(),
{
    reveal(Seq::filter);
    if s.len() > 0 {
        let rest = s.drop_last();
        assert(ids_distinct(rest)) by {
            assert forall|i: int, j: int| 0 <= i < j < rest.len() implies #[trigger] rest[i].spec_id()
                != #[trigger] rest[j].spec_id() by {
                assert(rest[i] == s[i] && rest[j] == s[j]);
            }
        }
        lemma_filter_ids_distinct(rest, pred);
        let f0 = rest.filter(pred);
        if pred(s.last()) {
            let f = f0.push(s.last());
            assert(s.filter(pred) == f);
            assert forall|i: int, j: int| 0 <= i < j < f.len() implies #[trigger] f[i].spec_id()
                != #[trigger] f[j].spec_id() by {
                if j == f.len() - 1 {
                    assert(f0.contains(f[i]));
                    rest.lemma_filter_contains_rev(pred, f[i]);
                    let w = choose|w: int| 0 <= w < rest.len() && rest[w] == f[i];
                    assert(s[w] == f[i]);
                    assert(s[s.len() - 1] == s.last());
                } else {
                    assert(f[i] == f0[i] && f[j] == f0[j]);
                }
            }
        }
    }
}

/// With distinct identifiers on both sides, a merge keeps identifiers
/// distinct, and its identifiers are those of `before` and of `remote`.
pub proof fn lemma_merge_ids<T: Identifiable>(before: Seq<T>, remote: Seq<T>, after: Seq<T>)
    requires
        merged_by_id(before, remote, after),
        ids_distinct(before),
        ids_distinct(remote),
    ensures
        ids_distinct(after),
        forall|x: u64| #[trigger] ids_of(after).contains(x) <==> ids_of(before).contains(x) || ids_of(remote).contains(x),
{
    let n = before.len() as int;
    let pred = |x: T| !ids_of(before).contains(x.spec_id());
    let f = remote.filter(pred);
    assert(new_by_id(before, remote) == f);
    assert(after.skip(n) == f);
    assert forall|p: int| 0 <= p < n implies #[trigger] after[p].spec_id() == before[p].spec_id() by {
        let id = before[p].spec_id();
        assert(first_with_id(before, p)) by {
            assert forall|q: int| 0 <= q < p implies before[q].spec_id() != before[p].spec_id() by {
            }
        }
        if ids_of(remote).contains(id) {
            let k = choose|k: int| last_with_id(remote, k, id) && after[p] == remote[k];
        }
    }
    assert forall|w: int| 0 <= w < f.len() implies #[trigger] after[n + w] == f[w] by {
        assert(after.skip(n)[w] == after[n + w]);
    }
    assert forall|w: int| 0 <= w < f.len() implies !ids_of(before).contains(#[trigger] f[w].spec_id()) by {
        remote.lemma_filter_pred(pred, w);
    }
    lemma_filter_ids_distinct(remote, pred);
    assert forall|i: int, j: int| 0 <= i < j < after.len() implies #[trigger] after[i].spec_id()
        != #[trigger] after[j].spec_id() by {
        if j < n {
        } else if i >= n {
            assert(after[i] == f[i - n] && after[j] == f[j - n]);
        } else {
            assert(after[j] == f[j - n]);
            assert(!ids_of(before).contains(f[j - n].spec_id()));
            assert(ids_of(before)[i] == before[i].spec_id());
        }
    }
    assert forall|x: u64| #[trigger] ids_of(after).contains(x) <==> ids_of(before).contains(x)
        || ids_of(remote).contains(x) by {
        if ids_of(after).contains(x) {
            let i = choose|i: int| 0 <= i < ids_of(after).len() && ids_of(after)[i] == x;
            if i < n {
                assert(ids_of(before)[i] == x);
            } else {
                assert(after[i] == f[i - n]);
                assert(f.contains(f[i - n]));
                remote.lemma_filter_contains_rev(pred, f[i - n]);
                let k = choose|k: int| 0 <= k < remote.len() && remote[k] == f[i - n];
                assert(ids_of(remote)[k] == x);
            }
        }
        if ids_of(before).contains(x) {
            let i = choose|i: int| 0 <= i < ids_of(before).len() && ids_of(before)[i] == x;
            assert(ids_of(after)[i] == x);
        } else if ids_of(remote).contains(x) {
            let k = choose|k: int| 0 <= k < ids_of(remote).len() && ids_of(remote)[k] == x;
            assert(pred(remote[k]));
            remote.lemma_filter_contains(pred, k);
            let w = choose|w: int| 0 <= w < f.len() && f[w] == remote[k];
            assert(ids_of(after)[n + w] == x);
        }
    }
}

/// The first position of `s` that holds the identifier at position `w`.
proof fn first_position<T: Identifiable>(s: Seq<T>, w: int) -> (p: int)
    requires
        0 <= w < s.len(),
    ensures
        0 <= p <= w,
        s[p].spec_id() == s[w].spec_id(),
        first_with_id(s, p),
    decreases w,
{
    if exists|q: int| 0 <= q < w && s[q].spec_id() == s[w].spec_id() {
        let q = choose|q: int| 0 <= q < w && s[q].spec_id() == s[w].spec_id();
        first_position(s, q)
    } else {
        w
    }
}

/// The titles of a sequence of summaries, in order.
pub open spec fn titles_of(s: Seq<Summary>) -> Seq<Seq<char>> {
    s.map_values(|x: Summary| x.title@)
}

/// The summaries of `remote` whose title does not occur in `local`.
pub open spec fn new_by_title(local: Seq<Summary>, remote: Seq<Summary>) -> Seq<Summary> {
    remote.filter(|x: Summary| !titles_of(local).contains(x.title@))
}

/// `after` is `before` followed by the summaries of `remote` whose title is
/// not among those of `before`, in order.
pub open spec fn added_new_titles(before: Seq<Summary>, remote: Seq<Summary>, after: Seq<Summary>) -> bool {
    after == before + new_by_title(before, remote)
}

/// Whether one of the first `n` summaries has the given title.
fn has_title(items: &Vec<Summary>, n: usize, title: &String) -> (r: bool)
    requires
        n <= items@.len(),
    ensures
        r == titles_of(items@.take(n as int)).contains(title@),
{
    let mut i: usize = 0;
    while i < n
        invariant
            i <= n <= items@.len(),
            forall|q: int| 0 <= q < i ==> items@[q].title@ != title@,
        decreases n - i,
    {
        if items[i].title == *title {
            assert(titles_of(items@.take(n as int))[i as int] == title@);
            return true;
        }
        i += 1;
    }
    proof {
        if titles_of(items@.take(n as int)).contains(title@) {
            let w = choose|w: int| 0 <= w < n && #[trigger] titles_of(items@.take(n as int))[w] == title@;
            assert(items@[w].title@ == title@);
        }
    }
    false
}

/// Appends to `local` each summary of `remote` whose title was not in `local`.
fn append_new_summaries(local: &mut Vec<Summary>, remote: Vec<Summary>)
    ensures
        added_new_titles(old(local)@, remote@, final(local)@),
{
    let ghost old_local = local@;
    let ghost orig = remote@;
    let n = local.len();
    let ghost pred = |x: Summary| !titles_of(old_local).contains(x.title@);
    let mut rest = remote;
    let m = rest.len();
    let mut j: usize = 0;
    assert(local@.take(n as int) =~= old_local);
    assert(old_local + orig.take(0).filter(pred) =~= old_local);
    while j < m
        invariant
            j <= m == orig.len(),
            rest@ == orig.skip(j as int),
            n == old_local.len(),
            n <= local@.len(),
            pred == (|x: Summary| !titles_of(old_local).contains(x.title@)),
            local@ == old_local + orig.take(j as int).filter(pred),
        decreases m - j,
    {
        proof {
            assert(rest@[0] == orig[j as int]);
            crate::seq_facts::lemma_filter_take_step(orig, j as int, pred);
            assert(local@.take(n as int) =~= old_local);
        }
        let item = rest.remove(0);
        proof {
            assert(rest@ =~= orig.skip(j + 1));
        }
        if !has_title(local, n, &item.title) {
            local.push(item);
        }
        j += 1;
    }
    proof {
        crate::seq_facts::lemma_take_full(orig);
        assert(new_by_title(old_local, orig) == orig.filter(pred));
    }
}

/// Merges summaries by title: each remote summary whose title is not among the
/// local ones is appended; summaries with a known title are left alone.
pub fn merge_summaries(local: &mut Vec<Summary>, remote: Vec<Summary>)
    ensures
        added_new_titles(old(local)@, remote@, final(local)@),
{
    append_new_summaries(local, remote);
}

/// Adds the remote summaries whose title is not among the local ones.
pub fn add_new_summaries(local: &mut Vec<Summary>, remote: Vec<Summary>)
    ensures
        added_new_titles(old(local)@, remote@, final(local)@),
{
    append_new_summaries(local, remote);
}

/// `r` is `data` with every category that `cfg` does not sync emptied.
/// Attachment records are always kept.
pub open spec fn scoped_to(r: AppData, data: AppData, cfg: WebdavConfig) -> bool {
    &&& r.notes@ == (if cfg.sync_notes { data.notes@ } else { Seq::empty() })
    &&& r.summaries@ == (if cfg.sync_summaries { data.summaries@ } else { Seq::empty() })
    &&& r.clips@ == (if cfg.sync_clips { data.clips@ } else { Seq::empty() })
    &&& r.questions@ == (if cfg.sync_questions { data.questions@ } else { Seq::empty() })
    &&& r.flashcards@ == (if cfg.sync_flashcards { data.flashcards@ } else { Seq::empty() })
    &&& r.tasks.todo@ == (if cfg.sync_tasks { data.tasks.todo@ } else { Seq::empty() })
    &&& r.tasks.doing@ == (if cfg.sync_tasks { data.tasks.doing@ } else { Seq::empty() })
    &&& r.tasks.done@ == (if cfg.sync_tasks { data.tasks.done@ } else { Seq::empty() })
    &&& r.attachments == data.attachments
    &&& r.next_task_id == data.next_task_id
    &&& r.next_fc_id == data.next_fc_id
    &&& r.ai_config == data.ai_config
    &&& r.webdav_config == data.webdav_config
    &&& r.shortcuts == data.shortcuts
    &&& r.attachment_dir == data.attachment_dir
    &&& r.attachment_move_mode == data.attachment_move_mode
    &&& r.folders == data.folders
    &&& r.data_dir == data.data_dir
}

/// Restricts `data` to the categories that `cfg` synchronises.
pub fn apply_sync_scope(data: AppData, cfg: &WebdavConfig) -> (r: AppData)
    ensures
        scoped_to(r, data, *cfg),
{
    let mut data = data;
    if !cfg.sync_notes {
        data.notes.clear();
    }
    if !cfg.sync_summaries {
        data.summaries.clear();
    }
    if !cfg.sync_clips {
        data.clips.clear();
    }
    if !cfg.sync_questions {
        data.questions.clear();
    }
    if !cfg.sync_flashcards {
        data.flashcards.clear();
    }
    if !cfg.sync_tasks {
        data.tasks = TaskBoard { todo: Vec::new(), doing: Vec::new(), done: Vec::new() };
    }
    data
}

/// `p` is the first position in `s` of an item with identifier `id`.
pub open spec fn first_pos<T: Identifiable>(s: Seq<T>, p: int, id: u64) -> bool {
    &&& 0 <= p < s.len()
    &&& s[p].spec_id() == id
    &&& forall|q: int| 0 <= q < p ==> s[q].spec_id() != id
}

/// Some item of `s` has identifier `id`.
pub open spec fn has_id<T: Identifiable>(s: Seq<T>, id: u64) -> bool {
    exists|p: int| 0 <= p < s.len() && #[trigger] s[p].spec_id() == id
}

/// The first position in `s` of an item with identifier `id`.
pub open spec fn index_of_id<T: Identifiable>(s: Seq<T>, id: u64) -> int {
    choose|p: int| first_pos(s, p, id)
}

/// Where some item has identifier `id`, `index_of_id` is the first position
/// of one.
pub proof fn lemma_index_of_id<T: Identifiable>(s: Seq<T>, id: u64)
    requires
        has_id(s, id),
    ensures
        first_pos(s, index_of_id(s, id), id),
{
    let w = choose|p: int| 0 <= p < s.len() && #[trigger] s[p].spec_id() == id;
    let p = first_position(s, w);
    assert(first_pos(s, p, id));
}

/// `s` without the items whose identifier is `id`.
pub open spec fn without_id<T: Identifiable>(s: Seq<T>, id: u64) -> Seq<T> {
    s.filter(id_differs(id))
}

/// The items whose identifier is not `id`.
pub open spec fn id_differs<T: Identifiable>(id: u64) -> spec_fn(T) -> bool {
    |x: T| x.spec_id() != id
}

/// The first position of an item with identifier `id`.
pub fn position_of_id<T: Identifiable>(v: &Vec<T>, id: u64) -> (r: Option<usize>)
    ensures
        match r {
            Some(p) => first_pos(v@, p as int, id) && index_of_id(v@, id) == p,
            None => !has_id(v@, id),
        },
{
    let mut i: usize = 0;
    while i < v.len()
        invariant
            i <= v@.len(),
            forall|q: int| 0 <= q < i ==> v@[q].spec_id() != id,
        decreases v@.len() - i,
    {
        if v[i].id() == id {
            proof {
                assert(first_pos(v@, i as int, id));
                let c = index_of_id(v@, id);
                assert(first_pos(v@, c, id));
                if c < i {
                } else if c > i {
                    assert(v@[i as int].spec_id() != id);
                }
            }
            return Some(i);
        }
        i += 1;
    }
    None
}

/// Removes every item with identifier `id`, keeping the others in order.
pub fn remove_id<T: Identifiable>(v: &mut Vec<T>, id: u64)
    ensures
        final(v)@ == without_id(old(v)@, id),
{
    let ghost orig = v@;
    let ghost pred = id_differs::<T>(id);
    let mut i: usize = 0;
    let ghost mut j: int = 0;
    while i < v.len()
        invariant
            0 <= i <= j <= orig.len(),
            pred == id_differs::<T>(id),
            v@.len() == i + (orig.len() - j),
            v@.take(i as int) == orig.take(j).filter(pred),
            v@.skip(i as int) == orig.skip(j),
        decreases orig.len() - j,
    {
        let ghost before = v@;
        proof {
            crate::seq_facts::lemma_filter_take_step(orig, j, pred);
            assert(before.skip(i as int)[0] == before[i as int]);
            assert(orig.skip(j)[0] == orig[j]);
            assert(v@[i as int] == orig[j]);
        }
        if v[i].id() == id {
            v.remove(i);
            proof {
                assert forall|k: int| 0 <= k < v@.len() - i implies #[trigger] v@.skip(i as int)[k] == orig.skip(j + 1)[k] by {
                    assert(v@[i + k] == before[i + k + 1]);
                    assert(before.skip(i as int)[k + 1] == orig.skip(j)[k + 1]);
                }
                assert(v@.take(i as int) =~= orig.take(j + 1).filter(pred));
                assert(v@.skip(i as int) =~= orig.skip(j + 1));
                j = j + 1;
            }
        } else {
            proof {
                assert(v@.take(i + 1) =~= orig.take(j + 1).filter(pred));
                assert forall|k: int| 0 <= k < v@.len() - i - 1 implies #[trigger] v@.skip(i + 1)[k] == orig.skip(j + 1)[k] by {
                    assert(before.skip(i as int)[k + 1] == orig.skip(j)[k + 1]);
                }
                assert(v@.skip(i + 1) =~= orig.skip(j + 1));
                j = j + 1;
            }
            i += 1;
        }
    }
    proof {
        assert(j == orig.len());
        crate::seq_facts::lemma_take_full(orig);
        assert(v@ =~= v@.take(i as int));
        assert(without_id(orig, id) == orig.filter(pred));
    }
}

/// Distinct statuses have distinct labels.
pub proof fn lemma_status_labels_distinct(a: QuestionStatus, b: QuestionStatus)
    requires
        a != b,
    ensures
        status_label(a) != status_label(b),
{
    reveal_strlit("待解决");
    reveal_strlit("进行中");
    reveal_strlit("已解答");
    assert("待解决"@[0] != "进行中"@[0]);
    assert("待解决"@[0] != "已解答"@[0]);
    assert("进行中"@[0] != "已解答"@[0]);
}

} // verus!

//! The edits behind the app's commands. Each function changes the store as
//! the command does; reading the clock for fresh identifiers, writing files,
//! saving and notifying the window stay with the caller, which passes fresh
//! identifiers in.

use vstd::prelude::*;
use vstd::string::*;
use vstd::utf8::*;
use crate::webdav::names_view;
use crate::models::{
    AiConfig, AppData, Attachment, DataDirResult, ShortcutConfig, WebdavConfig, Clip, Flashcard, Identifiable, Note, Question, QuestionStatus, Subtask,
    Task, TaskBoard, TaskPriority, Version, chrono_now, local_now, first_pos, has_id, index_of_id, lemma_index_of_id, position_of_id, remove_id, spec_next_status,
    status_label, without_id,
};

verus! {

// ---------------------------------------------------------------------------
// Clock and identifiers
// ---------------------------------------------------------------------------

/// Today's local date as `%Y-%m-%d`: ASCII, at least 10 characters.
pub(crate) fn today() -> (r: String)
    ensures
        is_ascii_chars(r@),
        r@.len() >= 10,
{
    proof {
        reveal_strlit("%Y-%m-%d");
    }
    local_now("%Y-%m-%d")
}

/// The local time now as `%Y-%m-%dT%H:%M:%S`: ASCII, at least 19 characters.
pub(crate) fn now_iso() -> (r: String)
    ensures
        is_ascii_chars(r@),
        r@.len() >= 19,
{
    chrono_now()
}

/// The local time now as `%Y%m%d_%H%M%S`, for names of backup directories:
/// ASCII, at least 15 characters.
pub fn now_iso_filename() -> (r: String)
    ensures
        is_ascii_chars(r@),
        r@.len() >= 15,
{
    proof {
        reveal_strlit("%Y%m%d_%H%M%S");
        reveal_strlit("%Y-%m-%d");
        reveal_strlit("%Y-%m-%dT%H:%M:%S");
        assert("%Y%m%d_%H%M%S"@.len() != "%Y-%m-%d"@.len());
        assert("%Y%m%d_%H%M%S"@.len() != "%Y-%m-%dT%H:%M:%S"@.len());
    }
    local_now("%Y%m%d_%H%M%S")
}

/// The largest integer that JavaScript represents exactly: 2^53 - 1. Larger
/// identifiers are rounded on the web side, and lookups by them fail.
pub const MAX_SAFE_ID: u64 = 9007199254740991;

/// The identifier made from a millisecond timestamp and a counter: the
/// timestamp shifted left by 10 bits (within 64 bits) plus the counter modulo
/// 1000, capped at `MAX_SAFE_ID`.
pub open spec fn spec_gen_id(ts_millis: u64, counter: u64) -> u64 {
    let raw = (ts_millis << 10u64) + (counter % 1000);
    if raw > MAX_SAFE_ID {
        MAX_SAFE_ID
    } else {
        raw as u64
    }
}

/// A fresh identifier from the current time in milliseconds and the value of a
/// process-wide counter.
pub fn gen_id(ts_millis: u64, counter: u64) -> (r: u64)
    ensures
        r == spec_gen_id(ts_millis, counter),
        r <= MAX_SAFE_ID,
{
    let shifted = ts_millis << 10u64;
    assert(shifted <= 0xffff_ffff_ffff_fc00u64) by (bit_vector)
        requires
            shifted == ts_millis << 10u64,
    ;
    let id = shifted + counter % 1000;
    if id > MAX_SAFE_ID {
        MAX_SAFE_ID
    } else {
        id
    }
}

/// Within one millisecond, identifiers from counters that differ modulo 1000
/// differ, as long as neither reaches the cap.
pub proof fn lemma_gen_id_distinct(ts_millis: u64, c1: u64, c2: u64)
    requires
        c1 % 1000 != c2 % 1000,
        spec_gen_id(ts_millis, c1) < MAX_SAFE_ID,
        spec_gen_id(ts_millis, c2) < MAX_SAFE_ID,
    ensures
        spec_gen_id(ts_millis, c1) != spec_gen_id(ts_millis, c2),
{
}

// ---------------------------------------------------------------------------
// Text helpers
// ---------------------------------------------------------------------------

/// The decimal digits of `n`.
pub open spec fn decimal(n: nat) -> Seq<char>
    decreases n,
{
    if n < 10 {
        seq![(n + 48) as char]
    } else {
        decimal(n / 10) + seq![((n % 10) + 48) as char]
    }
}

/// The one-character text of the digit `d`.
fn digit_str(d: u64) -> (r: &'static str)
    requires
        d < 10,
    ensures
        r@ == seq![(d + 48) as char],
{
    proof {
        reveal_strlit("0");
        reveal_strlit("1");
        reveal_strlit("2");
        reveal_strlit("3");
        reveal_strlit("4");
        reveal_strlit("5");
        reveal_strlit("6");
        reveal_strlit("7");
        reveal_strlit("8");
        reveal_strlit("9");
    }
    if d == 0 {
        "0"
    } else if d == 1 {
        "1"
    } else if d == 2 {
        "2"
    } else if d == 3 {
        "3"
    } else if d == 4 {
        "4"
    } else if d == 5 {
        "5"
    } else if d == 6 {
        "6"
    } else if d == 7 {
        "7"
    } else if d == 8 {
        "8"
    } else {
        "9"
    }
}

/// `n` written in decimal.
pub fn decimal_text(n: u64) -> (r: String)
    ensures
        r@ == decimal(n as nat),
    decreases n,
{
    if n < 10 {
        String::from_str(digit_str(n))
    } else {
        let mut out = decimal_text(n / 10);
        out.append(digit_str(n % 10));
        out
    }
}

/// Whether two lists of strings hold the same texts in the same order.
fn same_strings(a: &Vec<String>, b: &Vec<String>) -> (r: bool)
    ensures
        r == (names_view(a@) == names_view(b@)),
{
    if a.len() != b.len() {
        assert(names_view(a@).len() != names_view(b@).len());
        return false;
    }
    let mut i: usize = 0;
    while i < a.len()
        invariant
            a@.len() == b@.len(),
            i <= a@.len(),
            forall|k: int| 0 <= k < i ==> a@[k]@ == b@[k]@,
        decreases a@.len() - i,
    {
        if a[i] != b[i] {
            assert(names_view(a@)[i as int] != names_view(b@)[i as int]);
            return false;
        }
        i += 1;
    }
    assert(names_view(a@) =~= names_view(b@));
    true
}

/// The texts of `items` separated by `sep`.
pub open spec fn join(items: Seq<Seq<char>>, sep: Seq<char>) -> Seq<char>
    decreases items.len(),
{
    if items.len() == 0 {
        seq![]
    } else if items.len() == 1 {
        items[0]
    } else {
        join(items.drop_last(), sep) + sep + items.last()
    }
}

/// Joins `items` with `sep`.
pub(crate) fn join_strings(items: &Vec<String>, sep: &str) -> (r: String)
    ensures
        r@ == join(names_view(items@), sep@),
{
    let mut out = String::new();
    let mut i: usize = 0;
    while i < items.len()
        invariant
            i <= items@.len(),
            out@ == join(names_view(items@.take(i as int)), sep@),
        decreases items@.len() - i,
    {
        let ghost before = out@;
        if i != 0 {
            out.append(sep);
        }
        out.append(items[i].as_str());
        proof {
            let t = names_view(items@.take(i + 1));
            assert(t.drop_last() =~= names_view(items@.take(i as int)));
            assert(t.last() == items@[i as int]@);
            if i == 0 {
                assert(t.len() == 1);
            }
        }
        i += 1;
    }
    assert(items@.take(i as int) =~= items@);
    out
}

/// The changes between a question's last recorded version and the question
/// now, each as its note: title, status (from one label to the other), note,
/// tags, description.
pub open spec fn change_items(prev: Version, q: Question) -> Seq<Seq<char>> {
    (if prev.question@ != q.question@ { seq!["标题更新"@] } else { seq![] }) + (if prev.status
        != q.status {
        seq!["状态从「"@ + status_label(prev.status) + "」→「"@ + status_label(q.status) + "」"@]
    } else {
        seq![]
    }) + (if prev.note@ != q.note@ { seq!["备注更新"@] } else { seq![] }) + (if names_view(
        prev.tags@,
    ) != names_view(q.tags@) {
        seq!["标签变更"@]
    } else {
        seq![]
    }) + (if prev.desc@ != q.desc@ { seq!["描述更新"@] } else { seq![] })
}

/// What a new version says changed: its change notes joined by `；`, or
/// `更新了信息` when nothing did.
pub open spec fn change_summary(prev: Version, q: Question) -> Seq<char> {
    if change_items(prev, q).len() == 0 {
        "更新了信息"@
    } else {
        join(change_items(prev, q), "；"@)
    }
}

/// A change note is listed exactly for each field that differs between the
/// last version and the question: title, note, tags (as a sequence of texts)
/// and description each have their own note, a status change is listed as
/// one note, and nothing is listed when no field differs. When only the tags
/// differ, the summary is the tag note alone.
pub proof fn lemma_change_notes(prev: Version, q: Question)
    ensures
        change_items(prev, q).contains("标题更新"@) <==> prev.question@ != q.question@,
        change_items(prev, q).contains("备注更新"@) <==> prev.note@ != q.note@,
        change_items(prev, q).contains("标签变更"@) <==> names_view(prev.tags@) != names_view(q.tags@),
        change_items(prev, q).contains("描述更新"@) <==> prev.desc@ != q.desc@,
        change_items(prev, q).contains(
            "状态从「"@ + status_label(prev.status) + "」→「"@ + status_label(q.status) + "」"@,
        ) <==> prev.status != q.status,
        change_items(prev, q).len() == 0 <==> (prev.question@ == q.question@ && prev.status == q.status
            && prev.note@ == q.note@ && names_view(prev.tags@) == names_view(q.tags@) && prev.desc@
            == q.desc@),
        (prev.question@ == q.question@ && prev.status == q.status && prev.note@ == q.note@
            && names_view(prev.tags@) != names_view(q.tags@) && prev.desc@ == q.desc@)
            ==> change_summary(prev, q) == "标签变更"@,
{
    reveal_strlit("标题更新");
    reveal_strlit("备注更新");
    reveal_strlit("标签变更");
    reveal_strlit("描述更新");
    reveal_strlit("状态从「");
    let t: Seq<Seq<char>> = if prev.question@ != q.question@ { seq!["标题更新"@] } else { seq![] };
    let st: Seq<Seq<char>> = if prev.status != q.status {
        seq!["状态从「"@ + status_label(prev.status) + "」→「"@ + status_label(q.status) + "」"@]
    } else {
        seq![]
    };
    let n: Seq<Seq<char>> = if prev.note@ != q.note@ { seq!["备注更新"@] } else { seq![] };
    let g: Seq<Seq<char>> = if names_view(prev.tags@) != names_view(q.tags@) { seq!["标签变更"@] } else { seq![] };
    let d: Seq<Seq<char>> = if prev.desc@ != q.desc@ { seq!["描述更新"@] } else { seq![] };
    let items = change_items(prev, q);
    assert(items == t + st + n + g + d);
    // Each note is told apart from the others by its first two characters.
    let notes = seq!["标题更新"@, "备注更新"@, "标签变更"@, "描述更新"@];
    assert forall|k: int| 0 <= k < items.len() implies {
        ||| (#[trigger] items[k] == "标题更新"@ && t.len() == 1 && k == 0)
        ||| (items[k][0] == '状' && st.len() == 1)
        ||| (items[k] == "备注更新"@ && n.len() == 1)
        ||| (items[k] == "标签变更"@ && g.len() == 1)
        ||| (items[k] == "描述更新"@ && d.len() == 1)
    } by {
        if k < t.len() {
            assert(items[k] == t[k]);
        } else if k < t.len() + st.len() {
            assert(items[k] == st[k - t.len()]);
        } else if k < t.len() + st.len() + n.len() {
            assert(items[k] == n[k - t.len() - st.len()]);
        } else if k < t.len() + st.len() + n.len() + g.len() {
            assert(items[k] == g[k - t.len() - st.len() - n.len()]);
        } else {
            assert(items[k] == d[k - t.len() - st.len() - n.len() - g.len()]);
        }
    }
    if t.len() == 1 {
        assert(items[0] == "标题更新"@);
    }
    if n.len() == 1 {
        assert(items[(t.len() + st.len()) as int] == "备注更新"@);
    }
    if g.len() == 1 {
        assert(items[(t.len() + st.len() + n.len()) as int] == "标签变更"@);
    }
    if d.len() == 1 {
        assert(items[(t.len() + st.len() + n.len() + g.len()) as int] == "描述更新"@);
    }
    if st.len() == 1 {
        assert(items[t.len() as int] == st[0]);
    }
    let sn = "状态从「"@ + status_label(prev.status) + "」→「"@ + status_label(q.status) + "」"@;
    assert(sn[0] == '状');
    assert(notes[0][0] != '状' && notes[1][0] != '状' && notes[2][0] != '状' && notes[3][0] != '状');
    assert(notes[0][1] != notes[2][1]);
    assert(notes[0][0] != notes[1][0] && notes[0][0] != notes[3][0]);
    assert(notes[1][0] != notes[2][0] && notes[1][0] != notes[3][0] && notes[2][0] != notes[3][0]);
    if prev.question@ == q.question@ && prev.status == q.status && prev.note@ == q.note@
        && names_view(prev.tags@) != names_view(q.tags@) && prev.desc@ == q.desc@ {
        assert(items =~= seq!["标签变更"@]);
    }
}

/// `v` records the current state of question `q` under identifier `id`.
pub open spec fn records(v: Version, q: Question, id: u64) -> bool {
    &&& v.id == id
    &&& v.q_id == q.id
    &&& v.question == q.question
    &&& v.status == q.status
    &&& v.desc == q.desc
    &&& v.note == q.note
    &&& names_view(v.tags@) == names_view(q.tags@)
    &&& is_ascii_chars(v.timestamp@)
}

/// How many versions a question keeps.
pub const MAX_VERSIONS: usize = 50;

/// The number of versions after one more is recorded on top of `n`.
pub open spec fn versions_after(n: int) -> int {
    if n == 0 {
        1
    } else if n + 1 > 50 {
        50
    } else {
        n + 1
    }
}

/// Records the current state of `q` as a new version with identifier `id`,
/// noting what changed since the last version (`创建问题` for the first one),
/// and keeps only the newest 50 versions.
pub fn push_version(q: &mut Question, id: u64)
    ensures
        *final(q) == (Question { versions: final(q).versions, ..*old(q) }),
        final(q).versions@.len() == versions_after(old(q).versions@.len() as int),
        final(q).versions@.len() <= MAX_VERSIONS,
        final(q).versions@.drop_last() == old(q).versions@.skip(
            old(q).versions@.len() + 1 - final(q).versions@.len(),
        ),
        records(final(q).versions@.last(), *old(q), id),
        final(q).versions@.last().change_desc@ == (if old(q).versions@.len() == 0 {
            "创建问题"@
        } else {
            change_summary(old(q).versions@.last(), *old(q))
        }),
{
    let ghost q0 = *q;
    let n = q.versions.len();
    if n > 0 {
        let prev = &q.versions[n - 1];
        let mut changes: Vec<String> = Vec::new();
        if prev.question != q.question {
            changes.push(String::from_str("标题更新"));
        }
        if prev.status != q.status {
            let mut c = String::from_str("状态从「");
            c.append(prev.status.label());
            c.append("」→「");
            c.append(q.status.label());
            c.append("」");
            changes.push(c);
        }
        if prev.note != q.note {
            changes.push(String::from_str("备注更新"));
        }
        if !same_strings(&prev.tags, &q.tags) {
            changes.push(String::from_str("标签变更"));
        }
        if prev.desc != q.desc {
            changes.push(String::from_str("描述更新"));
        }
        assert(names_view(changes@) =~= change_items(*prev, q0));
        let change_desc = if changes.len() == 0 {
            String::from_str("更新了信息")
        } else {
            join_strings(&changes, "；")
        };
        let v = Version {
            id,
            q_id: q.id,
            timestamp: now_iso(),
            question: q.question.clone(),
            status: q.status,
            desc: q.desc.clone(),
            note: q.note.clone(),
            tags: q.tags.clone(),
            change_desc,
        };
        assert(names_view(v.tags@) =~= names_view(q.tags@));
        q.versions.push(v);
        let ghost full = q.versions@;
        let ghost mut dropped: int = 0;
        while q.versions.len() > MAX_VERSIONS
            invariant
                q.versions@ == full.skip(dropped),
                0 <= dropped <= full.len(),
                full.len() == n + 1,
                full.last() == v,
                full.drop_last() == q0.versions@,
                *q == (Question { versions: q.versions, ..q0 }),
                q.versions@.len() >= MAX_VERSIONS || dropped == 0,
            decreases q.versions@.len(),
        {
            q.versions.remove(0);
            proof {
                assert(q.versions@ =~= full.skip(dropped + 1));
                dropped = dropped + 1;
            }
        }
        proof {
            assert(q.versions@.last() == v);
            assert(q.versions@.drop_last() =~= q0.versions@.skip(dropped));
        }
    } else {
        let v = Version {
            id,
            q_id: q.id,
            timestamp: now_iso(),
            question: q.question.clone(),
            status: q.status,
            desc: q.desc.clone(),
            note: q.note.clone(),
            tags: q.tags.clone(),
            change_desc: String::from_str("创建问题"),
        };
        assert(names_view(v.tags@) =~= names_view(q.tags@));
        q.versions.push(v);
        assert(q.versions@.drop_last() =~= q0.versions@.skip(0));
    }
}

// ---------------------------------------------------------------------------
// Notes, clips, flashcards
// ---------------------------------------------------------------------------

/// Adds a note with identifier `id` and text `text`, no tags, stamped with
/// the current time and date.
pub fn add_note(data: &mut AppData, id: u64, text: String)
    ensures
        *final(data) == (AppData { notes: final(data).notes, ..*old(data) }),
        final(data).notes@.len() == old(data).notes@.len() + 1,
        final(data).notes@.drop_last() == old(data).notes@,
        final(data).notes@.last().id == id,
        final(data).notes@.last().text == text,
        final(data).notes@.last().tags@.len() == 0,
        final(data).notes@.last().time@.len() >= 19,
        final(data).notes@.last().date@.len() >= 10,
{
    let note = Note { id, text, tags: Vec::new(), time: now_iso(), date: today() };
    data.notes.push(note);
    assert(data.notes@.drop_last() =~= old(data).notes@);
}

pub open spec fn not_found_message(id: u64) -> Seq<char> {
    "未找到要删除的记录（id="@ + decimal(id as nat) + "），可能已被删除或 id 超出安全范围"@
}

/// Deletes the notes with identifier `id`; when there is none, fails and
/// leaves the store as it was.
pub fn delete_note(data: &mut AppData, id: u64) -> (r: Result<(), String>)
    ensures
        match r {
            Ok(()) => has_id(old(data).notes@, id) && *final(data) == (AppData {
                notes: final(data).notes,
                ..*old(data)
            }) && final(data).notes@ == without_id(old(data).notes@, id),
            Err(e) => !has_id(old(data).notes@, id) && *final(data) == *old(data) && e@
                == not_found_message(id),
        },
{
    if position_of_id(&data.notes, id).is_none() {
        let mut e = String::from_str("未找到要删除的记录（id=");
        e.append(decimal_text(id).as_str());
        e.append("），可能已被删除或 id 超出安全范围");
        return Err(e);
    }
    remove_id(&mut data.notes, id);
    Ok(())
}

/// Sets the text of the first note with identifier `id`, if there is one.
pub fn update_note(data: &mut AppData, id: u64, text: String)
    ensures
        *final(data) == (AppData { notes: final(data).notes, ..*old(data) }),
        final(data).notes@ == (if has_id(old(data).notes@, id) {
            old(data).notes@.update(
                index_of_id(old(data).notes@, id),
                Note { text: text, ..old(data).notes@[index_of_id(old(data).notes@, id)] },
            )
        } else {
            old(data).notes@
        }),
{
    if let Some(p) = position_of_id(&data.notes, id) {
        let mut n = data.notes.remove(p);
        n.text = text;
        data.notes.insert(p, n);
        assert(data.notes@ =~= old(data).notes@.update(p as int, n));
    }
}

/// Adds a clip with identifier `id`.
pub fn add_clip(data: &mut AppData, id: u64, title: String, url: String)
    ensures
        *final(data) == (AppData { clips: final(data).clips, ..*old(data) }),
        final(data).clips@ == old(data).clips@.push(Clip { id, title, url }),
{
    data.clips.push(Clip { id, title, url });
}

/// Deletes the clips with identifier `id`.
pub fn delete_clip(data: &mut AppData, id: u64)
    ensures
        *final(data) == (AppData { clips: final(data).clips, ..*old(data) }),
        final(data).clips@ == without_id(old(data).clips@, id),
{
    remove_id(&mut data.clips, id);
}

/// Sets the title and address of the first clip with identifier `id`, if any.
pub fn update_clip(data: &mut AppData, id: u64, title: String, url: String)
    ensures
        *final(data) == (AppData { clips: final(data).clips, ..*old(data) }),
        final(data).clips@ == (if has_id(old(data).clips@, id) {
            old(data).clips@.update(index_of_id(old(data).clips@, id), Clip { id, title, url })
        } else {
            old(data).clips@
        }),
{
    if let Some(p) = position_of_id(&data.clips, id) {
        let mut c = data.clips.remove(p);
        c.title = title;
        c.url = url;
        data.clips.insert(p, c);
        assert(data.clips@ =~= old(data).clips@.update(p as int, c));
    }
}

/// Adds a flashcard with identifier `id`, dated today.
pub fn add_flashcard(data: &mut AppData, id: u64, front: String, back: String, tag: String)
    ensures
        *final(data) == (AppData { flashcards: final(data).flashcards, ..*old(data) }),
        final(data).flashcards@.len() == old(data).flashcards@.len() + 1,
        final(data).flashcards@.drop_last() == old(data).flashcards@,
        final(data).flashcards@.last() == (Flashcard {
            date: final(data).flashcards@.last().date,
            id,
            front,
            back,
            tag,
        }),
        final(data).flashcards@.last().date@.len() >= 10,
{
    data.flashcards.push(Flashcard { id, front, back, tag, date: today() });
    assert(data.flashcards@.drop_last() =~= old(data).flashcards@);
}

/// Deletes the flashcards with identifier `id`.
pub fn delete_flashcard(data: &mut AppData, id: u64)
    ensures
        *final(data) == (AppData { flashcards: final(data).flashcards, ..*old(data) }),
        final(data).flashcards@ == without_id(old(data).flashcards@, id),
{
    remove_id(&mut data.flashcards, id);
}

/// Sets the faces and tag of the first flashcard with identifier `id`, if any.
pub fn update_flashcard(data: &mut AppData, id: u64, front: String, back: String, tag: String)
    ensures
        *final(data) == (AppData { flashcards: final(data).flashcards, ..*old(data) }),
        final(data).flashcards@ == (if has_id(old(data).flashcards@, id) {
            old(data).flashcards@.update(
                index_of_id(old(data).flashcards@, id),
                Flashcard {
                    front,
                    back,
                    tag,
                    ..old(data).flashcards@[index_of_id(old(data).flashcards@, id)]
                },
            )
        } else {
            old(data).flashcards@
        }),
{
    if let Some(p) = position_of_id(&data.flashcards, id) {
        let mut f = data.flashcards.remove(p);
        f.front = front;
        f.back = back;
        f.tag = tag;
        data.flashcards.insert(p, f);
        assert(data.flashcards@ =~= old(data).flashcards@.update(p as int, f));
    }
}

// ---------------------------------------------------------------------------
// Questions
// ---------------------------------------------------------------------------

/// Adds an open question with identifier `id`, no note and no versions,
/// stamped with the current time and date.
pub fn add_question(data: &mut AppData, id: u64, question: String, desc: String, tags: Vec<String>)
    ensures
        *final(data) == (AppData { questions: final(data).questions, ..*old(data) }),
        final(data).questions@.len() == old(data).questions@.len() + 1,
        final(data).questions@.drop_last() == old(data).questions@,
        final(data).questions@.last() == (Question {
            created: final(data).questions@.last().created,
            date: final(data).questions@.last().date,
            note: final(data).questions@.last().note,
            versions: final(data).questions@.last().versions,
            id,
            question,
            desc,
            status: QuestionStatus::Open,
            tags,
        }),
        final(data).questions@.last().note@.len() == 0,
        final(data).questions@.last().versions@.len() == 0,
{
    let q = Question {
        id,
        question,
        desc,
        note: String::new(),
        status: QuestionStatus::Open,
        tags,
        created: now_iso(),
        date: today(),
        versions: Vec::new(),
    };
    data.questions.push(q);
    assert(data.questions@.drop_last() =~= old(data).questions@);
}

/// Deletes the questions with identifier `id`.
pub fn delete_question(data: &mut AppData, id: u64)
    ensures
        *final(data) == (AppData { questions: final(data).questions, ..*old(data) }),
        final(data).questions@ == without_id(old(data).questions@, id),
{
    remove_id(&mut data.questions, id);
}

/// `q2` is `q` after its fields were set as `edited` says and a version with
/// identifier `vid` was recorded.
pub open spec fn edited_then_recorded(q: Question, edited: Question, q2: Question, vid: u64) -> bool {
    &&& q2 == (Question { versions: q2.versions, ..edited })
    &&& edited.versions == q.versions
    &&& edited.id == q.id
    &&& q2.versions@.len() == versions_after(q.versions@.len() as int)
    &&& q2.versions@.drop_last() == q.versions@.skip(q.versions@.len() + 1 - q2.versions@.len())
    &&& records(q2.versions@.last(), edited, vid)
    &&& q2.versions@.last().change_desc@ == (if q.versions@.len() == 0 {
        "创建问题"@
    } else {
        change_summary(q.versions@.last(), edited)
    })
}

/// The questions after the first one with identifier `id` (if any) was edited
/// and recorded: every other question is unchanged.
pub open spec fn question_edited(
    old_qs: Seq<Question>,
    new_qs: Seq<Question>,
    id: u64,
    vid: u64,
    edit: spec_fn(Question) -> Question,
) -> bool {
    if has_id(old_qs, id) {
        let p = index_of_id(old_qs, id);
        &&& new_qs.len() == old_qs.len()
        &&& forall|k: int| 0 <= k < old_qs.len() && k != p ==> new_qs[k] == old_qs[k]
        &&& edited_then_recorded(old_qs[p], edit(old_qs[p]), new_qs[p], vid)
    } else {
        new_qs == old_qs
    }
}

/// Sets the title, description and tags of the first question with
/// identifier `id`, if any, and records a version with identifier `version_id`.
pub fn update_question(
    data: &mut AppData,
    id: u64,
    version_id: u64,
    question: String,
    desc: String,
    tags: Vec<String>,
)
    ensures
        *final(data) == (AppData { questions: final(data).questions, ..*old(data) }),
        question_edited(
            old(data).questions@,
            final(data).questions@,
            id,
            version_id,
            |q: Question| Question { question: question, desc: desc, tags: tags, ..q },
        ),
{
    if let Some(p) = position_of_id(&data.questions, id) {
        let mut q = data.questions.remove(p);
        q.question = question;
        q.desc = desc;
        q.tags = tags;
        let ghost edited = q;
        push_version(&mut q, version_id);
        data.questions.insert(p, q);
        assert(data.questions@ =~= old(data).questions@.update(p as int, q));
    }
}

/// Moves the first question with identifier `id`, if any, to the next status
/// and records a version with identifier `version_id`.
pub fn cycle_question(data: &mut AppData, id: u64, version_id: u64)
    ensures
        *final(data) == (AppData { questions: final(data).questions, ..*old(data) }),
        question_edited(
            old(data).questions@,
            final(data).questions@,
            id,
            version_id,
            |q: Question| Question { status: spec_next_status(q.status), ..q },
        ),
{
    if let Some(p) = position_of_id(&data.questions, id) {
        let mut q = data.questions.remove(p);
        q.status = q.status.next();
        push_version(&mut q, version_id);
        data.questions.insert(p, q);
        assert(data.questions@ =~= old(data).questions@.update(p as int, q));
    }
}

/// Sets the note of the first question with identifier `id`, if any, and
/// records a version with identifier `version_id`.
pub fn update_question_note(data: &mut AppData, id: u64, version_id: u64, note: String)
    ensures
        *final(data) == (AppData { questions: final(data).questions, ..*old(data) }),
        question_edited(
            old(data).questions@,
            final(data).questions@,
            id,
            version_id,
            |q: Question| Question { note: note, ..q },
        ),
{
    if let Some(p) = position_of_id(&data.questions, id) {
        let mut q = data.questions.remove(p);
        q.note = note;
        push_version(&mut q, version_id);
        data.questions.insert(p, q);
        assert(data.questions@ =~= old(data).questions@.update(p as int, q));
    }
}

// ---------------------------------------------------------------------------
// Tasks
// ---------------------------------------------------------------------------

/// The board column a status names: `doing` and `done`, anything else meaning `todo`.
pub open spec fn column_index(status: Seq<char>) -> int {
    if status == "doing"@ {
        1
    } else if status == "done"@ {
        2
    } else {
        0
    }
}

/// The tasks of column `c` (0 todo, 1 doing, 2 done).
pub open spec fn column(b: TaskBoard, c: int) -> Seq<Task> {
    if c == 1 {
        b.doing@
    } else if c == 2 {
        b.done@
    } else {
        b.todo@
    }
}

/// Every column but `c` is as it was.
pub open spec fn others_unchanged(before: TaskBoard, after: TaskBoard, c: int) -> bool {
    &&& (c != 0 ==> after.todo == before.todo)
    &&& (c != 1 ==> after.doing == before.doing)
    &&& (c != 2 ==> after.done == before.done)
}

/// The number of tasks on the board.
pub open spec fn task_count(b: TaskBoard) -> int {
    (b.todo@.len() + b.doing@.len() + b.done@.len()) as int
}

/// The priority a text names: `high` and `low`, anything else meaning medium.
pub open spec fn priority_of(p: Seq<char>) -> TaskPriority {
    if p == "high"@ {
        TaskPriority::High
    } else if p == "low"@ {
        TaskPriority::Low
    } else {
        TaskPriority::Medium
    }
}

/// The column that a status names.
fn column_of(status: &str) -> (r: u8)
    ensures
        r == column_index(status@),
{
    if crate::crypto::str_eq(status, "doing") {
        1
    } else if crate::crypto::str_eq(status, "done") {
        2
    } else {
        0
    }
}

/// Adds a task titled `title` to the column named by `status`, with the next
/// task number as identifier, medium priority, today's date, no note and no
/// subtasks; the next task number goes up by one.
pub fn add_task(data: &mut AppData, title: String, status: &str)
    requires
        old(data).next_task_id < u64::MAX,
    ensures
        *final(data) == (AppData {
            tasks: final(data).tasks,
            next_task_id: final(data).next_task_id,
            ..*old(data)
        }),
        final(data).next_task_id == old(data).next_task_id + 1,
        others_unchanged(old(data).tasks, final(data).tasks, column_index(status@)),
        column(final(data).tasks, column_index(status@)).len() == column(
            old(data).tasks,
            column_index(status@),
        ).len() + 1,
        column(final(data).tasks, column_index(status@)).drop_last() == column(
            old(data).tasks,
            column_index(status@),
        ),
        column(final(data).tasks, column_index(status@)).last() == (Task {
            date: column(final(data).tasks, column_index(status@)).last().date,
            note: column(final(data).tasks, column_index(status@)).last().note,
            subtasks: column(final(data).tasks, column_index(status@)).last().subtasks,
            id: old(data).next_task_id,
            title: title,
            priority: TaskPriority::Medium,
        }),
        column(final(data).tasks, column_index(status@)).last().note@.len() == 0,
        column(final(data).tasks, column_index(status@)).last().subtasks@.len() == 0,
{
    let task = Task {
        id: data.next_task_id,
        title,
        priority: TaskPriority::Medium,
        date: today(),
        note: String::new(),
        subtasks: Vec::new(),
    };
    data.next_task_id = data.next_task_id + 1;
    let c = column_of(status);
    if c == 1 {
        data.tasks.doing.push(task);
    } else if c == 2 {
        data.tasks.done.push(task);
    } else {
        data.tasks.todo.push(task);
    }
    assert(column(data.tasks, c as int).drop_last() =~= column(old(data).tasks, c as int));
}

/// The tasks after the first one with identifier `id` (if any) was changed by `edit`.
pub open spec fn task_edited(old_ts: Seq<Task>, new_ts: Seq<Task>, id: u64, edit: spec_fn(Task) -> Task) -> bool {
    new_ts == (if has_id(old_ts, id) {
        old_ts.update(index_of_id(old_ts, id), edit(old_ts[index_of_id(old_ts, id)]))
    } else {
        old_ts
    })
}

fn update_task_in(
    list: &mut Vec<Task>,
    id: u64,
    title: String,
    priority: TaskPriority,
    date: String,
    note: String,
)
    ensures
        task_edited(
            old(list)@,
            final(list)@,
            id,
            |t: Task| Task { title: title, priority: priority, date: date, note: note, ..t },
        ),
{
    if let Some(p) = position_of_id(list, id) {
        let mut t = list.remove(p);
        t.title = title;
        t.priority = priority;
        t.date = date;
        t.note = note;
        list.insert(p, t);
        assert(list@ =~= old(list)@.update(p as int, t));
    }
}

/// After an edit of the first task with identifier `id` that sets the
/// priority named by the text `p`, the task with that identifier (the first
/// one) has priority High for `high`, Low for `low` and Medium for any other
/// text.
pub proof fn lemma_edited_task_priority(
    before: Seq<Task>,
    after: Seq<Task>,
    id: u64,
    p: Seq<char>,
    edit: spec_fn(Task) -> Task,
)
    requires
        has_id(before, id),
        task_edited(before, after, id, edit),
        forall|t: Task| #[trigger] edit(t).id == t.id && edit(t).priority == priority_of(p),
    ensures
        has_id(after, id),
        p == "high"@ ==> after[index_of_id(after, id)].priority == TaskPriority::High,
        p == "low"@ ==> after[index_of_id(after, id)].priority == TaskPriority::Low,
        p != "high"@ && p != "low"@ ==> after[index_of_id(after, id)].priority == TaskPriority::Medium,
{
    reveal_strlit("high");
    reveal_strlit("low");
    assert("low"@.len() != "high"@.len());
    let i = index_of_id(before, id);
    lemma_index_of_id(before, id);
    assert(after[i] == edit(before[i]));
    assert(after[i].id == id);
    assert(has_id(after, id)) by {
        assert(after[i].spec_id() == id);
    }
    lemma_index_of_id(after, id);
    let j = index_of_id(after, id);
    if j < i {
        assert(after[j] == before[j]);
    } else if j > i {
        assert(after[i].spec_id() == id);
    }
    assert(j == i);
}

/// Sets the title, priority (named by `priority`), date and note of the first
/// task with identifier `id` in the column named by `status`, if any.
pub fn update_task(
    data: &mut AppData,
    id: u64,
    status: &str,
    title: String,
    priority: &str,
    date: String,
    note: String,
)
    ensures
        *final(data) == (AppData { tasks: final(data).tasks, ..*old(data) }),
        others_unchanged(old(data).tasks, final(data).tasks, column_index(status@)),
        task_edited(
            column(old(data).tasks, column_index(status@)),
            column(final(data).tasks, column_index(status@)),
            id,
            |t: Task| Task { title: title, priority: priority_of(priority@), date: date, note: note, ..t },
        ),
        has_id(column(old(data).tasks, column_index(status@)), id) ==> {
            let ts = column(final(data).tasks, column_index(status@));
            &&& has_id(ts, id)
            &&& (priority@ == "high"@ ==> ts[index_of_id(ts, id)].priority == TaskPriority::High)
            &&& (priority@ == "low"@ ==> ts[index_of_id(ts, id)].priority == TaskPriority::Low)
            &&& (priority@ != "high"@ && priority@ != "low"@ ==> ts[index_of_id(ts, id)].priority
                == TaskPriority::Medium)
        },
{
    let ghost c0 = column(data.tasks, column_index(status@));
    let pr = if crate::crypto::str_eq(priority, "high") {
        TaskPriority::High
    } else if crate::crypto::str_eq(priority, "low") {
        TaskPriority::Low
    } else {
        TaskPriority::Medium
    };
    let c = column_of(status);
    if c == 1 {
        update_task_in(&mut data.tasks.doing, id, title, pr, date, note);
    } else if c == 2 {
        update_task_in(&mut data.tasks.done, id, title, pr, date, note);
    } else {
        update_task_in(&mut data.tasks.todo, id, title, pr, date, note);
    }
    proof {
        if has_id(c0, id) {
            lemma_edited_task_priority(
                c0,
                column(data.tasks, column_index(status@)),
                id,
                priority@,
                |t: Task| Task { title: title, priority: priority_of(priority@), date: date, note: note, ..t },
            );
        }
    }
}

/// Deletes the tasks with identifier `id` from the column named by `status`.
pub fn delete_task(data: &mut AppData, id: u64, status: &str)
    ensures
        *final(data) == (AppData { tasks: final(data).tasks, ..*old(data) }),
        others_unchanged(old(data).tasks, final(data).tasks, column_index(status@)),
        column(final(data).tasks, column_index(status@)) == without_id(
            column(old(data).tasks, column_index(status@)),
            id,
        ),
{
    let c = column_of(status);
    if c == 1 {
        remove_id(&mut data.tasks.doing, id);
    } else if c == 2 {
        remove_id(&mut data.tasks.done, id);
    } else {
        remove_id(&mut data.tasks.todo, id);
    }
}

/// Takes the first task with identifier `id` out of `list`.
fn take_task(list: &mut Vec<Task>, id: u64) -> (r: Option<Task>)
    ensures
        match r {
            Some(t) => has_id(old(list)@, id) && first_pos(old(list)@, index_of_id(old(list)@, id), id)
                && t == old(list)@[index_of_id(old(list)@, id)]
                && final(list)@ == old(list)@.remove(index_of_id(old(list)@, id)),
            None => !has_id(old(list)@, id) && *final(list) == *old(list),
        },
{
    match position_of_id(list, id) {
        Some(p) => Some(list.remove(p)),
        None => None,
    }
}

/// Moves the first task with identifier `id` from the column named by `from`
/// to the end of the column named by `to`, resetting its priority to medium.
/// Without such a task nothing changes. No task is lost or added.
pub fn move_task(data: &mut AppData, id: u64, from: &str, to: &str)
    ensures
        *final(data) == (AppData { tasks: final(data).tasks, ..*old(data) }),
        task_count(final(data).tasks) == task_count(old(data).tasks),
        ({
            let f = column_index(from@);
            let t = column_index(to@);
            let src = column(old(data).tasks, f);
            if has_id(src, id) {
                let moved = Task { priority: TaskPriority::Medium, ..src[index_of_id(src, id)] };
                if f == t {
                    &&& others_unchanged(old(data).tasks, final(data).tasks, f)
                    &&& column(final(data).tasks, f) == src.remove(index_of_id(src, id)).push(moved)
                } else {
                    &&& column(final(data).tasks, f) == src.remove(index_of_id(src, id))
                    &&& column(final(data).tasks, t) == column(old(data).tasks, t).push(moved)
                    &&& (f != 0 && t != 0 ==> final(data).tasks.todo == old(data).tasks.todo)
                    &&& (f != 1 && t != 1 ==> final(data).tasks.doing == old(data).tasks.doing)
                    &&& (f != 2 && t != 2 ==> final(data).tasks.done == old(data).tasks.done)
                }
            } else {
                final(data).tasks == old(data).tasks
            }
        }),
{
    let f = column_of(from);
    let t = column_of(to);
    let taken = if f == 1 {
        take_task(&mut data.tasks.doing, id)
    } else if f == 2 {
        take_task(&mut data.tasks.done, id)
    } else {
        take_task(&mut data.tasks.todo, id)
    };
    let ghost mid = data.tasks;
    assert(others_unchanged(old(data).tasks, mid, f as int));
    if let Some(task) = taken {
        let mut task = task;
        task.priority = TaskPriority::Medium;
        if t == 1 {
            data.tasks.doing.push(task);
        } else if t == 2 {
            data.tasks.done.push(task);
        } else {
            data.tasks.todo.push(task);
        }
        assert(others_unchanged(mid, data.tasks, t as int));
        assert(column(data.tasks, t as int) == column(mid, t as int).push(task));
    }
}

fn add_subtask_in(list: &mut Vec<Task>, task_id: u64, sub: Subtask)
    ensures
        task_edited(
            old(list)@,
            final(list)@,
            task_id,
            |t: Task| Task { subtasks: final(list)@[index_of_id(old(list)@, task_id)].subtasks, ..t },
        ),
        has_id(old(list)@, task_id) ==> final(list)@[index_of_id(old(list)@, task_id)].subtasks@
            == old(list)@[index_of_id(old(list)@, task_id)].subtasks@.push(sub),
{
    if let Some(p) = position_of_id(list, task_id) {
        let mut t = list.remove(p);
        t.subtasks.push(sub);
        list.insert(p, t);
        assert(list@ =~= old(list)@.update(p as int, t));
    }
}

/// Adds an unfinished subtask with identifier `subtask_id` to the first task
/// with identifier `task_id` in the column named by `status`, if any.
pub fn add_task_subtask(data: &mut AppData, task_id: u64, status: &str, subtask_id: u64, text: String)
    ensures
        *final(data) == (AppData { tasks: final(data).tasks, ..*old(data) }),
        others_unchanged(old(data).tasks, final(data).tasks, column_index(status@)),
        ({
            let before = column(old(data).tasks, column_index(status@));
            let after = column(final(data).tasks, column_index(status@));
            &&& task_edited(
                before,
                after,
                task_id,
                |t: Task| Task { subtasks: after[index_of_id(before, task_id)].subtasks, ..t },
            )
            &&& has_id(before, task_id) ==> after[index_of_id(before, task_id)].subtasks@
                == before[index_of_id(before, task_id)].subtasks@.push(
                Subtask { id: subtask_id, text: text, done: false },
            )
        }),
{
    let sub = Subtask { id: subtask_id, text, done: false };
    let c = column_of(status);
    if c == 1 {
        add_subtask_in(&mut data.tasks.doing, task_id, sub);
    } else if c == 2 {
        add_subtask_in(&mut data.tasks.done, task_id, sub);
    } else {
        add_subtask_in(&mut data.tasks.todo, task_id, sub);
    }
}

/// The subtasks after the first one with identifier `id` (if any) was ticked or unticked.
pub open spec fn subtask_toggled(subs: Seq<Subtask>, id: u64) -> Seq<Subtask> {
    if has_id(subs, id) {
        subs.update(
            index_of_id(subs, id),
            Subtask { done: !subs[index_of_id(subs, id)].done, ..subs[index_of_id(subs, id)] },
        )
    } else {
        subs
    }
}

fn toggle_subtask_in(list: &mut Vec<Task>, task_id: u64, subtask_id: u64)
    ensures
        task_edited(
            old(list)@,
            final(list)@,
            task_id,
            |t: Task| Task { subtasks: final(list)@[index_of_id(old(list)@, task_id)].subtasks, ..t },
        ),
        has_id(old(list)@, task_id) ==> final(list)@[index_of_id(old(list)@, task_id)].subtasks@
            == subtask_toggled(old(list)@[index_of_id(old(list)@, task_id)].subtasks@, subtask_id),
{
    if let Some(p) = position_of_id(list, task_id) {
        let mut t = list.remove(p);
        if let Some(k) = position_of_id(&t.subtasks, subtask_id) {
            let mut sub = t.subtasks.remove(k);
            sub.done = !sub.done;
            t.subtasks.insert(k, sub);
            assert(t.subtasks@ =~= old(list)@[p as int].subtasks@.update(k as int, sub));
        }
        list.insert(p, t);
        assert(list@ =~= old(list)@.update(p as int, t));
    }
}

/// Ticks or unticks the first subtask with identifier `subtask_id` of the
/// first task with identifier `task_id` in the column named by `status`.
pub fn toggle_task_subtask(data: &mut AppData, task_id: u64, status: &str, subtask_id: u64)
    ensures
        *final(data) == (AppData { tasks: final(data).tasks, ..*old(data) }),
        others_unchanged(old(data).tasks, final(data).tasks, column_index(status@)),
        ({
            let before = column(old(data).tasks, column_index(status@));
            let after = column(final(data).tasks, column_index(status@));
            &&& task_edited(
                before,
                after,
                task_id,
                |t: Task| Task { subtasks: after[index_of_id(before, task_id)].subtasks, ..t },
            )
            &&& has_id(before, task_id) ==> after[index_of_id(before, task_id)].subtasks@
                == subtask_toggled(before[index_of_id(before, task_id)].subtasks@, subtask_id)
        }),
{
    let c = column_of(status);
    if c == 1 {
        toggle_subtask_in(&mut data.tasks.doing, task_id, subtask_id);
    } else if c == 2 {
        toggle_subtask_in(&mut data.tasks.done, task_id, subtask_id);
    } else {
        toggle_subtask_in(&mut data.tasks.todo, task_id, subtask_id);
    }
}

fn delete_subtask_in(list: &mut Vec<Task>, task_id: u64, subtask_id: u64)
    ensures
        task_edited(
            old(list)@,
            final(list)@,
            task_id,
            |t: Task| Task { subtasks: final(list)@[index_of_id(old(list)@, task_id)].subtasks, ..t },
        ),
        has_id(old(list)@, task_id) ==> final(list)@[index_of_id(old(list)@, task_id)].subtasks@
            == without_id(old(list)@[index_of_id(old(list)@, task_id)].subtasks@, subtask_id),
{
    if let Some(p) = position_of_id(list, task_id) {
        let mut t = list.remove(p);
        remove_id(&mut t.subtasks, subtask_id);
        list.insert(p, t);
        assert(list@ =~= old(list)@.update(p as int, t));
    }
}

/// Deletes the subtasks with identifier `subtask_id` of the first task with
/// identifier `task_id` in the column named by `status`.
pub fn delete_task_subtask(data: &mut AppData, task_id: u64, status: &str, subtask_id: u64)
    ensures
        *final(data) == (AppData { tasks: final(data).tasks, ..*old(data) }),
        others_unchanged(old(data).tasks, final(data).tasks, column_index(status@)),
        ({
            let before = column(old(data).tasks, column_index(status@));
            let after = column(final(data).tasks, column_index(status@));
            &&& task_edited(
                before,
                after,
                task_id,
                |t: Task| Task { subtasks: after[index_of_id(before, task_id)].subtasks, ..t },
            )
            &&& has_id(before, task_id) ==> after[index_of_id(before, task_id)].subtasks@
                == without_id(before[index_of_id(before, task_id)].subtasks@, subtask_id)
        }),
{
    let c = column_of(status);
    if c == 1 {
        delete_subtask_in(&mut data.tasks.doing, task_id, subtask_id);
    } else if c == 2 {
        delete_subtask_in(&mut data.tasks.done, task_id, subtask_id);
    } else {
        delete_subtask_in(&mut data.tasks.todo, task_id, subtask_id);
    }
}

// ---------------------------------------------------------------------------
// Settings
// ---------------------------------------------------------------------------

/// Sets the AI endpoint; nothing else changes.
pub fn save_ai_config(data: &mut AppData, url: String, model: String, key: String)
    ensures
        *final(data) == (AppData { ai_config: AiConfig { url, model, key }, ..*old(data) }),
{
    data.ai_config = AiConfig { url, model, key };
}

/// Sets the sync settings; nothing else changes.
pub fn save_webdav_config(data: &mut AppData, cfg: WebdavConfig)
    ensures
        *final(data) == (AppData { webdav_config: cfg, ..*old(data) }),
{
    data.webdav_config = cfg;
}

/// Sets the keyboard shortcuts; nothing else changes.
pub fn save_shortcuts(data: &mut AppData, send_note: String, quick_note: String)
    ensures
        *final(data) == (AppData { shortcuts: ShortcutConfig { send_note, quick_note }, ..*old(data) }),
{
    data.shortcuts = ShortcutConfig { send_note, quick_note };
}

/// Sets the data directory, and tells the directory it replaces and the new one.
pub fn save_data_dir(data: &mut AppData, dir: String) -> (r: DataDirResult)
    ensures
        *final(data) == (AppData { data_dir: final(data).data_dir, ..*old(data) }),
        final(data).data_dir@ == dir@,
        r.old_dir == old(data).data_dir,
        r.new_dir@ == dir@,
{
    let mut old_dir = dir.clone();
    std::mem::swap(&mut old_dir, &mut data.data_dir);
    DataDirResult { old_dir, new_dir: dir }
}

/// Sets whether files dropped in are moved (rather than copied) into the
/// attachment directory; nothing else changes.
pub fn save_attachment_move_mode(data: &mut AppData, mode: bool)
    ensures
        *final(data) == (AppData { attachment_move_mode: mode, ..*old(data) }),
{
    data.attachment_move_mode = mode;
}

/// Sets the attachment directory (empty for the default one); nothing else changes.
pub fn save_attachment_dir(data: &mut AppData, dir: String)
    ensures
        *final(data) == (AppData { attachment_dir: dir, ..*old(data) }),
{
    data.attachment_dir = dir;
}

/// The configuration that the connection test uses: the given server,
/// encryption and sync choices, with no algorithm set, no automatic sync,
/// pulls that add, no settings password, no settings sync and no plain
/// attachments.
pub fn test_webdav_config(
    url: String,
    user: String,
    pass: String,
    path: String,
    encrypt: bool,
    enc_pass: String,
    sync_notes: bool,
    sync_summaries: bool,
    sync_clips: bool,
    sync_questions: bool,
    sync_flashcards: bool,
    sync_tasks: bool,
    sync_attachments: bool,
    sync_mode: String,
) -> (r: WebdavConfig)
    ensures
        r == (WebdavConfig {
            enc_algorithm: r.enc_algorithm,
            pull_mode: r.pull_mode,
            settings_pass: r.settings_pass,
            url,
            user,
            pass,
            path,
            encrypt,
            enc_pass,
            sync_notes,
            sync_summaries,
            sync_clips,
            sync_questions,
            sync_flashcards,
            sync_tasks,
            sync_attachments,
            sync_mode,
            sync_interval: 0,
            sync_settings: false,
            allow_unencrypted_attachment: false,
        }),
        r.enc_algorithm@.len() == 0,
        r.pull_mode@ == "add"@,
        r.settings_pass@.len() == 0,
{
    WebdavConfig {
        url,
        user,
        pass,
        path,
        encrypt,
        enc_pass,
        enc_algorithm: String::new(),
        sync_notes,
        sync_summaries,
        sync_clips,
        sync_questions,
        sync_flashcards,
        sync_tasks,
        sync_attachments,
        sync_mode,
        sync_interval: 0,
        pull_mode: String::from_str("add"),
        settings_pass: String::new(),
        sync_settings: false,
        allow_unencrypted_attachment: false,
    }
}

/// What the automatic sync does next, for the interval setting `interval`
/// (in minutes): with none set (zero or less), wait 30 seconds and look again
/// without syncing; otherwise wait that many minutes, then sync.
pub fn auto_sync_delay(interval: i64) -> (r: (u64, bool))
    requires
        interval <= i64::MAX / 60,
    ensures
        interval <= 0 ==> r == (30u64, false),
        interval > 0 ==> r == ((interval * 60) as u64, true),
{
    if interval <= 0 {
        (30, false)
    } else {
        ((interval * 60) as u64, true)
    }
}

} // verus!

//! Attachment records and their folders: the edits that the attachment
//! commands make to the store once the files themselves are in place.

use vstd::prelude::*;
use vstd::string::*;
use crate::models::{AppData, Attachment, AttachmentMigrateResult, Identifiable, has_id, index_of_id, position_of_id, remove_id, without_id};
use crate::seq_facts::{lemma_filter_take_step, lemma_take_full};
use crate::commands::{now_iso, today};
use crate::webdav::{has_name, names_view, text_result};

verus! {

// ---------------------------------------------------------------------------
// Trimming
// ---------------------------------------------------------------------------

/// The characters with the Unicode property White_Space, which `str::trim`
/// strips from both ends of a text.
pub open spec fn is_white_space(c: char) -> bool {
    let u = c as u32;
    ||| 0x9 <= u <= 0xd
    ||| u == 0x20
    ||| u == 0x85
    ||| u == 0xa0
    ||| u == 0x1680
    ||| 0x2000 <= u <= 0x200a
    ||| u == 0x2028
    ||| u == 0x2029
    ||| u == 0x202f
    ||| u == 0x205f
    ||| u == 0x3000
}

fn white_space(c: char) -> (r: bool)
    ensures
        r == is_white_space(c),
{
    let u = c as u32;
    (0x9 <= u && u <= 0xd) || u == 0x20 || u == 0x85 || u == 0xa0 || u == 0x1680 || (0x2000 <= u
        && u <= 0x200a) || u == 0x2028 || u == 0x2029 || u == 0x202f || u == 0x205f || u == 0x3000
}

/// `s` without its leading white space.
pub open spec fn strip_start(s: Seq<char>) -> Seq<char>
    decreases s.len(),
{
    if s.len() > 0 && is_white_space(s[0]) {
        strip_start(s.drop_first())
    } else {
        s
    }
}

/// `s` without its trailing white space.
pub open spec fn strip_end(s: Seq<char>) -> Seq<char>
    decreases s.len(),
{
    if s.len() > 0 && is_white_space(s.last()) {
        strip_end(s.drop_last())
    } else {
        s
    }
}

/// `s` without white space at either end, as `str::trim` gives it.
pub open spec fn trimmed(s: Seq<char>) -> Seq<char> {
    strip_end(strip_start(s))
}

/// `s` with the white space at both ends removed.
pub fn trim_text(s: &str) -> (r: String)
    ensures
        r@ == trimmed(s@),
{
    let n = s.unicode_len();
    let mut i: usize = 0;
    assert(s@.subrange(0, n as int) =~= s@);
    while i < n && white_space(s.get_char(i))
        invariant
            n == s@.len(),
            i <= n,
            strip_start(s@) == strip_start(s@.subrange(i as int, n as int)),
        decreases n - i,
    {
        assert(s@.subrange(i as int, n as int).drop_first() =~= s@.subrange(i + 1, n as int));
        i += 1;
    }
    assert(strip_start(s@) == s@.subrange(i as int, n as int));
    let mut j: usize = n;
    while j > i && white_space(s.get_char(j - 1))
        invariant
            n == s@.len(),
            i <= j <= n,
            strip_end(s@.subrange(i as int, n as int)) == strip_end(s@.subrange(i as int, j as int)),
        decreases j - i,
    {
        assert(s@.subrange(i as int, j as int).drop_last() =~= s@.subrange(i as int, j - 1));
        j -= 1;
    }
    String::from_str(s.substring_char(i, j))
}

// ---------------------------------------------------------------------------
// Folders
// ---------------------------------------------------------------------------

/// The names of the store's attachment folders.
pub open spec fn folder_names(d: AppData) -> Seq<Seq<char>> {
    names_view(d.folders@)
}

/// What creating the folder `folder` comes to: its trimmed name, or the error
/// for an empty name or one already taken.
pub open spec fn new_folder_result(d: AppData, folder: Seq<char>) -> Result<Seq<char>, Seq<char>> {
    let name = trimmed(folder);
    if name.len() == 0 {
        Err("文件夹名称不能为空"@)
    } else if folder_names(d).contains(name) {
        Err("文件夹已存在: "@ + name)
    } else {
        Ok(name)
    }
}

/// The name under which `folder` would be created: `folder` trimmed, if that
/// is neither empty nor the name of an existing folder.
pub fn new_folder_name(data: &AppData, folder: &str) -> (r: Result<String, String>)
    ensures
        text_result(r) == new_folder_result(*data, folder@),
{
    let name = trim_text(folder);
    if name.as_str().is_empty() {
        return Err(String::from_str("文件夹名称不能为空"));
    }
    if has_name(data.folders.as_slice(), &name) {
        let mut msg = String::from_str("文件夹已存在: ");
        msg.append(name.as_str());
        return Err(msg);
    }
    Ok(name)
}

/// Registers a new folder named `folder` trimmed. Refused, with the store
/// unchanged, when the name is empty or taken; otherwise the name is added at
/// the end of the folder list and nothing else changes.
pub fn create_attachment_folder(data: &mut AppData, folder: &str) -> (r: Result<(), String>)
    ensures
        match new_folder_result(*old(data), folder@) {
            Ok(name) => r is Ok && folder_names(*final(data)) == folder_names(*old(data)).push(name)
                && *final(data) == (AppData { folders: final(data).folders, ..*old(data) }),
            Err(e) => r is Err && r->Err_0@ == e && *final(data) == *old(data),
        },
{
    match new_folder_name(data, folder) {
        Ok(name) => {
            data.folders.push(name);
            assert(folder_names(*data) =~= folder_names(*old(data)).push(trimmed(folder@)));
            Ok(())
        },
        Err(e) => Err(e),
    }
}


/// What renaming folder `old_name` to `new_name` comes to, both names trimmed:
/// an error for an empty name, for an unknown old name or a taken new one;
/// nothing to do when the names are equal; otherwise the pair of names.
pub open spec fn rename_plan(d: AppData, old_name: Seq<char>, new_name: Seq<char>) -> Result<
    Option<(Seq<char>, Seq<char>)>,
    Seq<char>,
> {
    let o = trimmed(old_name);
    let n = trimmed(new_name);
    if o.len() == 0 {
        Err("原文件夹名不能为空"@)
    } else if n.len() == 0 {
        Err("新文件夹名不能为空"@)
    } else if o == n {
        Ok(None)
    } else if !folder_names(d).contains(o) {
        Err("文件夹不存在: "@ + o)
    } else if folder_names(d).contains(n) {
        Err("文件夹已存在: "@ + n)
    } else {
        Ok(Some((o, n)))
    }
}

pub open spec fn plan_view(r: Result<Option<(String, String)>, String>) -> Result<
    Option<(Seq<char>, Seq<char>)>,
    Seq<char>,
> {
    match r {
        Ok(Some((o, n))) => Ok(Some((o@, n@))),
        Ok(None) => Ok(None),
        Err(e) => Err(e@),
    }
}

/// Checks a folder rename; see `rename_plan`.
pub fn plan_folder_rename(data: &AppData, old_name: &str, new_name: &str) -> (r: Result<
    Option<(String, String)>,
    String,
>)
    ensures
        plan_view(r) == rename_plan(*data, old_name@, new_name@),
{
    let o = trim_text(old_name);
    let n = trim_text(new_name);
    if o.as_str().is_empty() {
        return Err(String::from_str("原文件夹名不能为空"));
    }
    if n.as_str().is_empty() {
        return Err(String::from_str("新文件夹名不能为空"));
    }
    if o == n {
        return Ok(None);
    }
    if !has_name(data.folders.as_slice(), &o) {
        let mut msg = String::from_str("文件夹不存在: ");
        msg.append(o.as_str());
        return Err(msg);
    }
    if has_name(data.folders.as_slice(), &n) {
        let mut msg = String::from_str("文件夹已存在: ");
        msg.append(n.as_str());
        return Err(msg);
    }
    Ok(Some((o, n)))
}

/// `b` is `a` moved from folder `from` to folder `to`, or `a` itself when it
/// is in another folder.
pub open spec fn refoldered(a: Attachment, b: Attachment, from: Seq<char>, to: Seq<char>) -> bool {
    if a.folder@ == from {
        b == (Attachment { folder: b.folder, ..a }) && b.folder@ == to
    } else {
        b == a
    }
}

/// Every attachment of `before` moved from folder `from` to `to`, in order.
pub open spec fn all_refoldered(
    before: Seq<Attachment>,
    after: Seq<Attachment>,
    from: Seq<char>,
    to: Seq<char>,
) -> bool {
    &&& after.len() == before.len()
    &&& forall|k: int| 0 <= k < before.len() ==> refoldered(before[k], #[trigger] after[k], from, to)
}

/// Moves every attachment in folder `from` to folder `to`.
fn move_folder_contents(atts: &mut Vec<Attachment>, from: &String, to: &String)
    ensures
        all_refoldered(old(atts)@, final(atts)@, from@, to@),
{
    let mut i: usize = 0;
    while i < atts.len()
        invariant
            i <= atts@.len(),
            atts@.len() == old(atts)@.len(),
            forall|k: int| 0 <= k < i ==> refoldered(old(atts)@[k], #[trigger] atts@[k], from@, to@),
            forall|k: int| i <= k < atts@.len() ==> #[trigger] atts@[k] == old(atts)@[k],
        decreases atts@.len() - i,
    {
        if atts[i].folder == *from {
            let mut a = atts.remove(i);
            a.folder = to.clone();
            atts.insert(i, a);
        }
        i += 1;
    }
}

/// Renames, in the folder list, each folder named `from` to `to`.
fn rename_in_list(folders: &mut Vec<String>, from: &String, to: &String)
    ensures
        names_view(final(folders)@) == names_view(old(folders)@).map_values(
            |f: Seq<char>| if f == from@ { to@ } else { f },
        ),
{
    let mut i: usize = 0;
    while i < folders.len()
        invariant
            i <= folders@.len(),
            folders@.len() == old(folders)@.len(),
            forall|k: int| 0 <= k < i ==> (#[trigger] folders@[k])@ == (if old(folders)@[k]@ == from@ { to@ } else { old(folders)@[k]@ }),
            forall|k: int| i <= k < folders@.len() ==> #[trigger] folders@[k] == old(folders)@[k],
        decreases folders@.len() - i,
    {
        if folders[i] == *from {
            folders.set(i, to.clone());
        }
        i += 1;
    }
    assert(names_view(folders@) =~= names_view(old(folders)@).map_values(
        |f: Seq<char>| if f == from@ { to@ } else { f },
    ));
}

/// Renames folder `old_name` to `new_name` (both trimmed): in the folder list
/// and in every attachment filed under it. Refused, with the store unchanged,
/// as `rename_plan` says; equal names change nothing.
pub fn rename_attachment_folder(data: &mut AppData, old_name: &str, new_name: &str) -> (r: Result<
    (),
    String,
>)
    ensures
        match rename_plan(*old(data), old_name@, new_name@) {
            Err(e) => r is Err && r->Err_0@ == e && *final(data) == *old(data),
            Ok(None) => r is Ok && *final(data) == *old(data),
            Ok(Some((o, n))) => {
                &&& r is Ok
                &&& folder_names(*final(data)) == folder_names(*old(data)).map_values(
                    |f: Seq<char>| if f == o { n } else { f },
                )
                &&& all_refoldered(old(data).attachments@, final(data).attachments@, o, n)
                &&& *final(data) == (AppData {
                    folders: final(data).folders,
                    attachments: final(data).attachments,
                    ..*old(data)
                })
            },
        },
{
    match plan_folder_rename(data, old_name, new_name) {
        Err(e) => Err(e),
        Ok(None) => Ok(()),
        Ok(Some((o, n))) => {
            rename_in_list(&mut data.folders, &o, &n);
            move_folder_contents(&mut data.attachments, &o, &n);
            Ok(())
        },
    }
}


/// What deleting folder `name` (trimmed) comes to: its trimmed name, or the
/// error for an empty or unknown name.
pub open spec fn delete_folder_result(d: AppData, name: Seq<char>) -> Result<Seq<char>, Seq<char>> {
    let n = trimmed(name);
    if n.len() == 0 {
        Err("文件夹名不能为空"@)
    } else if !folder_names(d).contains(n) {
        Err("文件夹不存在: "@ + n)
    } else {
        Ok(n)
    }
}

/// The name of the folder that deleting `name` removes; see `delete_folder_result`.
pub fn folder_to_delete(data: &AppData, name: &str) -> (r: Result<String, String>)
    ensures
        text_result(r) == delete_folder_result(*data, name@),
{
    let n = trim_text(name);
    if n.as_str().is_empty() {
        return Err(String::from_str("文件夹名不能为空"));
    }
    if !has_name(data.folders.as_slice(), &n) {
        let mut msg = String::from_str("文件夹不存在: ");
        msg.append(n.as_str());
        return Err(msg);
    }
    Ok(n)
}

/// The attachments filed in folder `name`.
pub open spec fn in_folder(name: Seq<char>) -> spec_fn(Attachment) -> bool {
    |a: Attachment| a.folder@ == name
}

/// The attachments filed elsewhere than in folder `name`.
pub open spec fn not_in_folder(name: Seq<char>) -> spec_fn(Attachment) -> bool {
    |a: Attachment| a.folder@ != name
}

/// The file names whose files go when folder `name` is deleted with its
/// contents: for each attachment in the folder, in order, the file name of the
/// first attachment that has its identifier.
pub open spec fn files_of_folder(s: Seq<Attachment>, name: Seq<char>) -> Seq<Seq<char>> {
    s.filter(in_folder(name)).map_values(|a: Attachment| s[index_of_id(s, a.id)].filename@)
}

/// The files to remove from folder `name` when it is deleted with its
/// contents; see `files_of_folder`.
pub fn folder_files_to_delete(data: &AppData, name: &String) -> (r: Vec<String>)
    ensures
        names_view(r@) == files_of_folder(data.attachments@, name@),
{
    let s = &data.attachments;
    let ghost pred = in_folder(name@);
    let ghost f = |a: Attachment| s@[index_of_id(s@, a.id)].filename@;
    let mut out: Vec<String> = Vec::new();
    let mut j: usize = 0;
    while j < s.len()
        invariant
            j <= s@.len(),
            pred == in_folder(name@),
            f == (|a: Attachment| s@[index_of_id(s@, a.id)].filename@),
            names_view(out@) == s@.take(j as int).filter(pred).map_values(f),
        decreases s@.len() - j,
    {
        proof {
            lemma_filter_take_step(s@, j as int, pred);
        }
        if s[j].folder == *name {
            let id = s[j].id;
            proof {
                assert(s@[j as int].spec_id() == id);
                assert(has_id(s@, id));
            }
            let ghost before = out@;
            match position_of_id(s, id) {
                Some(p) => {
                    out.push(s[p].filename.clone());
                    assert(out@.last()@ == f(s@[j as int]));
                },
                None => {},
            }
            assert(names_view(out@) =~= names_view(before).push(f(s@[j as int])));
            assert(names_view(out@) =~= s@.take(j + 1).filter(pred).map_values(f));
        } else {
            assert(names_view(out@) =~= s@.take(j + 1).filter(pred).map_values(f));
        }
        j += 1;
    }
    proof {
        lemma_take_full(s@);
    }
    out
}

/// Keeps the attachments filed outside folder `name`, in order.
fn drop_folder_contents(atts: &mut Vec<Attachment>, name: &String)
    ensures
        final(atts)@ == old(atts)@.filter(not_in_folder(name@)),
{
    let mut rest: Vec<Attachment> = Vec::new();
    std::mem::swap(&mut rest, atts);
    let ghost orig = rest@;
    let ghost pred = not_in_folder(name@);
    let ghost mut j: int = 0;
    while rest.len() > 0
        invariant
            0 <= j <= orig.len(),
            pred == not_in_folder(name@),
            rest@ == orig.skip(j),
            atts@ == orig.take(j).filter(pred),
        decreases rest@.len(),
    {
        proof {
            lemma_filter_take_step(orig, j, pred);
            assert(rest@[0] == orig[j]);
        }
        let a = rest.remove(0);
        if a.folder != *name {
            atts.push(a);
        }
        proof {
            assert(rest@ =~= orig.skip(j + 1));
            j = j + 1;
        }
    }
    proof {
        lemma_take_full(orig);
    }
}

/// The folder names other than `name`.
pub open spec fn not_named(name: Seq<char>) -> spec_fn(String) -> bool {
    |f: String| f@ != name
}

/// Keeps the folder names other than `name`, in order.
fn drop_folder_name(folders: &mut Vec<String>, name: &String)
    ensures
        final(folders)@ == old(folders)@.filter(not_named(name@)),
{
    let mut rest: Vec<String> = Vec::new();
    std::mem::swap(&mut rest, folders);
    let ghost orig = rest@;
    let ghost pred = not_named(name@);
    let ghost mut j: int = 0;
    while rest.len() > 0
        invariant
            0 <= j <= orig.len(),
            pred == not_named(name@),
            rest@ == orig.skip(j),
            folders@ == orig.take(j).filter(pred),
        decreases rest@.len(),
    {
        proof {
            lemma_filter_take_step(orig, j, pred);
            assert(rest@[0] == orig[j]);
        }
        let f = rest.remove(0);
        if f != *name {
            folders.push(f);
        }
        proof {
            assert(rest@ =~= orig.skip(j + 1));
            j = j + 1;
        }
    }
    proof {
        lemma_take_full(orig);
    }
}

/// Deletes folder `name` (trimmed) from the folder list. With mode `delete`
/// the attachments filed in it go too; with any other mode they move back to
/// no folder. Refused, with the store unchanged, as `delete_folder_result` says.
pub fn delete_attachment_folder(data: &mut AppData, name: &str, mode: &str) -> (r: Result<(), String>)
    ensures
        match delete_folder_result(*old(data), name@) {
            Err(e) => r is Err && r->Err_0@ == e && *final(data) == *old(data),
            Ok(n) => {
                &&& r is Ok
                &&& final(data).folders@ == old(data).folders@.filter(not_named(n))
                &&& (mode@ == "delete"@ ==> final(data).attachments@ == old(data).attachments@.filter(
                    not_in_folder(n),
                ))
                &&& (mode@ != "delete"@ ==> all_refoldered(
                    old(data).attachments@,
                    final(data).attachments@,
                    n,
                    seq![],
                ))
                &&& *final(data) == (AppData {
                    folders: final(data).folders,
                    attachments: final(data).attachments,
                    ..*old(data)
                })
            },
        },
{
    let n = match folder_to_delete(data, name) {
        Ok(n) => n,
        Err(e) => {
            return Err(e);
        },
    };
    if crate::crypto::str_eq(mode, "delete") {
        drop_folder_contents(&mut data.attachments, &n);
    } else {
        let none = String::new();
        move_folder_contents(&mut data.attachments, &n, &none);
    }
    drop_folder_name(&mut data.folders, &n);
    Ok(())
}

// ---------------------------------------------------------------------------
// Attachment records
// ---------------------------------------------------------------------------

/// Where the first attachment with identifier `id` lies: its folder (empty for
/// none) and its file name; `None` without such an attachment.
pub fn attachment_location(data: &AppData, id: u64) -> (r: Option<(String, String)>)
    ensures
        match r {
            Some((folder, file)) => has_id(data.attachments@, id) && folder@
                == data.attachments@[index_of_id(data.attachments@, id)].folder@ && file@
                == data.attachments@[index_of_id(data.attachments@, id)].filename@,
            None => !has_id(data.attachments@, id),
        },
{
    match position_of_id(&data.attachments, id) {
        Some(p) => Some((data.attachments[p].folder.clone(), data.attachments[p].filename.clone())),
        None => None,
    }
}

/// Records a new attachment `name` of `size` bytes with identifier `id`, in no
/// folder and linked to no note, created now and dated today, at the end of
/// the list; nothing else changes.
pub fn add_attachment(data: &mut AppData, id: u64, name: String, size: u64)
    ensures
        final(data).attachments@.len() == old(data).attachments@.len() + 1,
        final(data).attachments@.drop_last() == old(data).attachments@,
        final(data).attachments@.last() == (Attachment {
            created: final(data).attachments@.last().created,
            date: final(data).attachments@.last().date,
            note_ids: final(data).attachments@.last().note_ids,
            folder: final(data).attachments@.last().folder,
            id: id,
            filename: name,
            size: size,
        }),
        final(data).attachments@.last().note_ids@.len() == 0,
        final(data).attachments@.last().folder@.len() == 0,
        *final(data) == (AppData { attachments: final(data).attachments, ..*old(data) }),
{
    let att = Attachment {
        id,
        filename: name,
        size,
        note_ids: Vec::new(),
        folder: String::new(),
        created: now_iso(),
        date: today(),
    };
    data.attachments.push(att);
    assert(data.attachments@.drop_last() =~= old(data).attachments@);
}

/// Forgets the attachments with identifier `id`; nothing else changes.
pub fn delete_attachment(data: &mut AppData, id: u64)
    ensures
        final(data).attachments@ == without_id(old(data).attachments@, id),
        *final(data) == (AppData { attachments: final(data).attachments, ..*old(data) }),
{
    remove_id(&mut data.attachments, id);
}

/// `after` is `before` with the first attachment with identifier `id` (if
/// any) replaced by one that differs from it at most in its note links, which
/// become `links` of the old ones.
pub open spec fn links_edited(
    before: Seq<Attachment>,
    after: Seq<Attachment>,
    id: u64,
    links: spec_fn(Seq<u64>) -> Seq<u64>,
) -> bool {
    if has_id(before, id) {
        let p = index_of_id(before, id);
        &&& after == before.update(p, Attachment { note_ids: after[p].note_ids, ..before[p] })
        &&& after[p].note_ids@ == links(before[p].note_ids@)
    } else {
        after == before
    }
}

/// Links note `note_id` to the first attachment with identifier
/// `attachment_id`, at the end of its links, unless it is linked already;
/// nothing else changes.
pub fn link_note_attachment(data: &mut AppData, attachment_id: u64, note_id: u64)
    ensures
        links_edited(
            old(data).attachments@,
            final(data).attachments@,
            attachment_id,
            |ns: Seq<u64>| if ns.contains(note_id) { ns } else { ns.push(note_id) },
        ),
        *final(data) == (AppData { attachments: final(data).attachments, ..*old(data) }),
{
    if let Some(p) = position_of_id(&data.attachments, attachment_id) {
        let mut a = data.attachments.remove(p);
        let mut k: usize = 0;
        let mut found = false;
        while k < a.note_ids.len()
            invariant
                k <= a.note_ids@.len(),
                found == a.note_ids@.take(k as int).contains(note_id),
            decreases a.note_ids@.len() - k,
        {
            let ghost prev = a.note_ids@.take(k as int);
            assert(a.note_ids@.take(k + 1) =~= prev.push(a.note_ids@[k as int]));
            if a.note_ids[k] == note_id {
                found = true;
                assert(a.note_ids@.take(k + 1)[k as int] == note_id);
            } else {
                proof {
                    assert forall|x: u64| a.note_ids@.take(k + 1).contains(x) implies prev.contains(x) || x == a.note_ids@[k as int] by {
                        let w = choose|w: int| 0 <= w < k + 1 && #[trigger] a.note_ids@.take(k + 1)[w] == x;
                        if w < k {
                            assert(prev[w] == x);
                        }
                    }
                    if prev.contains(note_id) {
                        let w = choose|w: int| 0 <= w < k && #[trigger] prev[w] == note_id;
                        assert(a.note_ids@.take(k + 1)[w] == note_id);
                    }
                }
            }
            k += 1;
        }
        assert(a.note_ids@.take(k as int) =~= a.note_ids@);
        if !found {
            a.note_ids.push(note_id);
        }
        data.attachments.insert(p, a);
        assert(data.attachments@ =~= old(data).attachments@.update(p as int, a));
    }
}


/// Unlinks note `note_id` from the first attachment with identifier
/// `attachment_id`, keeping its other links in order; nothing else changes.
pub fn unlink_note_attachment(data: &mut AppData, attachment_id: u64, note_id: u64)
    ensures
        links_edited(
            old(data).attachments@,
            final(data).attachments@,
            attachment_id,
            |ns: Seq<u64>| ns.filter(|n: u64| n != note_id),
        ),
        *final(data) == (AppData { attachments: final(data).attachments, ..*old(data) }),
{
    if let Some(p) = position_of_id(&data.attachments, attachment_id) {
        let mut a = data.attachments.remove(p);
        let ghost orig = a.note_ids@;
        let ghost pred = |n: u64| n != note_id;
        let mut kept: Vec<u64> = Vec::new();
        let mut j: usize = 0;
        while j < a.note_ids.len()
            invariant
                j <= orig.len(),
                a.note_ids@ == orig,
                pred == (|n: u64| n != note_id),
                kept@ == orig.take(j as int).filter(pred),
            decreases orig.len() - j,
        {
            proof {
                lemma_filter_take_step(orig, j as int, pred);
            }
            if a.note_ids[j] != note_id {
                kept.push(a.note_ids[j]);
            }
            j += 1;
        }
        proof {
            lemma_take_full(orig);
        }
        a.note_ids = kept;
        data.attachments.insert(p, a);
        assert(data.attachments@ =~= old(data).attachments@.update(
            p as int,
            Attachment { note_ids: data.attachments@[p as int].note_ids, ..old(data).attachments@[p as int] },
        ));
    }
}

/// The folder list once folder `folder` is known: unchanged for no folder
/// (the empty name) or a listed one, else with `folder` added at the end.
pub open spec fn with_folder(names: Seq<Seq<char>>, folder: Seq<char>) -> Seq<Seq<char>> {
    if folder.len() == 0 || names.contains(folder) {
        names
    } else {
        names.push(folder)
    }
}

/// Adds `folder` to the folder list unless it is empty or listed already.
fn note_folder(folders: &mut Vec<String>, folder: &String)
    ensures
        names_view(final(folders)@) == with_folder(names_view(old(folders)@), folder@),
        folder@.len() == 0 || names_view(old(folders)@).contains(folder@) ==> *final(folders) == *old(folders),
{
    if !folder.as_str().is_empty() && !has_name(folders.as_slice(), folder) {
        folders.push(folder.clone());
        assert(names_view(folders@) =~= names_view(old(folders)@).push(folder@));
    }
}

/// Files the first attachment with identifier `id` under `folder` (the empty
/// name meaning no folder), and lists `folder` if it is new. Without such an
/// attachment nothing changes.
pub fn move_attachment(data: &mut AppData, id: u64, folder: String)
    ensures
        has_id(old(data).attachments@, id) ==> {
            let p = index_of_id(old(data).attachments@, id);
            &&& final(data).attachments@ == old(data).attachments@.update(
                p,
                Attachment { folder: final(data).attachments@[p].folder, ..old(data).attachments@[p] },
            )
            &&& final(data).attachments@[p].folder@ == folder@
            &&& folder_names(*final(data)) == with_folder(folder_names(*old(data)), folder@)
        },
        !has_id(old(data).attachments@, id) ==> *final(data) == *old(data),
        *final(data) == (AppData {
            attachments: final(data).attachments,
            folders: final(data).folders,
            ..*old(data)
        }),
{
    if let Some(p) = position_of_id(&data.attachments, id) {
        let mut a = data.attachments.remove(p);
        a.folder = folder.clone();
        data.attachments.insert(p, a);
        assert(data.attachments@ =~= old(data).attachments@.update(
            p as int,
            Attachment { folder: data.attachments@[p as int].folder, ..old(data).attachments@[p as int] },
        ));
        note_folder(&mut data.folders, &folder);
    }
}


/// Some record of `s` has file name `name`.
pub open spec fn has_file(s: Seq<Attachment>, name: Seq<char>) -> bool {
    exists|p: int| 0 <= p < s.len() && #[trigger] s[p].filename@ == name
}

/// `p` is the first position in `s` of a record with file name `name`.
pub open spec fn first_file(s: Seq<Attachment>, name: Seq<char>, p: int) -> bool {
    &&& 0 <= p < s.len()
    &&& s[p].filename@ == name
    &&& forall|q: int| 0 <= q < p ==> s[q].filename@ != name
}

/// The first position in `s` of a record with file name `name`.
pub open spec fn index_of_file(s: Seq<Attachment>, name: Seq<char>) -> int {
    choose|p: int| first_file(s, name, p)
}

/// Where some record has file name `name`, `index_of_file` is the first
/// position of one.
pub proof fn lemma_index_of_file(s: Seq<Attachment>, name: Seq<char>)
    requires
        has_file(s, name),
    ensures
        first_file(s, name, index_of_file(s, name)),
{
    let w = choose|p: int| 0 <= p < s.len() && #[trigger] s[p].filename@ == name;
    let p = first_file_at_or_before(s, name, w);
    assert(first_file(s, name, p));
}

/// A first position of file name `name` at or before `w`, where it occurs.
proof fn first_file_at_or_before(s: Seq<Attachment>, name: Seq<char>, w: int) -> (p: int)
    requires
        0 <= w < s.len(),
        s[w].filename@ == name,
    ensures
        first_file(s, name, p),
    decreases w,
{
    if exists|q: int| 0 <= q < w && s[q].filename@ == name {
        let q = choose|q: int| 0 <= q < w && s[q].filename@ == name;
        first_file_at_or_before(s, name, q)
    } else {
        w
    }
}

/// The first record with file name `name`, if any.
fn position_of_file(s: &Vec<Attachment>, name: &String) -> (r: Option<usize>)
    ensures
        match r {
            Some(p) => first_file(s@, name@, p as int) && index_of_file(s@, name@) == p,
            None => !has_file(s@, name@),
        },
{
    let mut i: usize = 0;
    while i < s.len()
        invariant
            i <= s@.len(),
            forall|q: int| 0 <= q < i ==> s@[q].filename@ != name@,
        decreases s@.len() - i,
    {
        if s[i].filename == *name {
            proof {
                assert(first_file(s@, name@, i as int));
                let c = index_of_file(s@, name@);
                if c < i {
                } else if c > i {
                    assert(s@[i as int].filename@ != name@);
                }
            }
            return Some(i);
        }
        i += 1;
    }
    None
}

/// What recording a downloaded attachment did.
pub enum DownloadRecord {
    /// A record of that file was already in that folder.
    Unchanged,
    /// A record of that file was moved to the folder; it was in the folder given.
    Moved(String),
    /// A new record was added.
    Added,
}

/// Records that the attachment file `filename` was downloaded into `folder`
/// (the empty name meaning no folder). When a record of that file exists (the
/// first one), it is filed under `folder`, and the folder it was in is
/// returned so that the file can follow. Otherwise a new record of `size`
/// bytes with identifier `id` is added at the end, created now and dated
/// today, and `folder` is listed if it is new.
pub fn record_downloaded_attachment(
    data: &mut AppData,
    filename: String,
    folder: String,
    id: u64,
    size: u64,
) -> (r: DownloadRecord)
    ensures
        has_file(old(data).attachments@, filename@) ==> {
            let p = index_of_file(old(data).attachments@, filename@);
            let before = old(data).attachments@[p];
            if before.folder@ == folder@ {
                r is Unchanged && *final(data) == *old(data)
            } else {
                &&& r matches DownloadRecord::Moved(f) && f@ == before.folder@
                &&& final(data).attachments@ == old(data).attachments@.update(
                    p,
                    Attachment { folder: final(data).attachments@[p].folder, ..before },
                )
                &&& final(data).attachments@[p].folder@ == folder@
                &&& *final(data) == (AppData { attachments: final(data).attachments, ..*old(data) })
            }
        },
        !has_file(old(data).attachments@, filename@) ==> {
            let a = final(data).attachments@.last();
            &&& r is Added
            &&& final(data).attachments@.len() == old(data).attachments@.len() + 1
            &&& final(data).attachments@.drop_last() == old(data).attachments@
            &&& a == (Attachment {
                created: a.created,
                date: a.date,
                note_ids: a.note_ids,
                id: id,
                filename: filename,
                size: size,
                folder: folder,
            })
            &&& a.note_ids@.len() == 0
            &&& folder_names(*final(data)) == with_folder(folder_names(*old(data)), folder@)
            &&& *final(data) == (AppData {
                attachments: final(data).attachments,
                folders: final(data).folders,
                ..*old(data)
            })
        },
{
    match position_of_file(&data.attachments, &filename) {
        Some(p) => {
            if data.attachments[p].folder == folder {
                DownloadRecord::Unchanged
            } else {
                let mut a = data.attachments.remove(p);
                let mut f = folder;
                std::mem::swap(&mut a.folder, &mut f);
                data.attachments.insert(p, a);
                assert(data.attachments@ =~= old(data).attachments@.update(
                    p as int,
                    Attachment {
                        folder: data.attachments@[p as int].folder,
                        ..old(data).attachments@[p as int]
                    },
                ));
                DownloadRecord::Moved(f)
            }
        },
        None => {
            note_folder(&mut data.folders, &folder);
            let att = Attachment {
                id,
                filename,
                size,
                note_ids: Vec::new(),
                folder,
                created: now_iso(),
                date: today(),
            };
            data.attachments.push(att);
            assert(data.attachments@.drop_last() =~= old(data).attachments@);
            DownloadRecord::Added
        },
    }
}


// ---------------------------------------------------------------------------
// Moving the attachment directory
// ---------------------------------------------------------------------------

/// What happened to one attachment's file when the attachment directory moved.
pub enum MigrationStep {
    /// There was no file to move.
    Absent,
    /// The file moved to the new directory.
    Moved,
    /// The new directory already held a file of that name: it was kept, and
    /// the old file was copied to the backup directory.
    Kept,
}

/// What happens to one attachment's file when the attachment directory
/// moves: nothing without a source file; kept (and backed up) when the new
/// directory already holds a file at its place; moved otherwise.
pub fn migration_step(src_exists: bool, dst_exists: bool) -> (r: MigrationStep)
    ensures
        !src_exists ==> r is Absent,
        src_exists && dst_exists ==> r is Kept,
        src_exists && !dst_exists ==> r is Moved,
{
    if !src_exists {
        MigrationStep::Absent
    } else if dst_exists {
        MigrationStep::Kept
    } else {
        MigrationStep::Moved
    }
}

/// How many of `steps` moved a file (`moved`), or kept one (not `moved`).
pub open spec fn count_steps(steps: Seq<MigrationStep>, moved: bool) -> nat
    decreases steps.len(),
{
    if steps.len() == 0 {
        0
    } else {
        count_steps(steps.drop_last(), moved) + if (moved && steps.last() is Moved) || (!moved
            && steps.last() is Kept) {
            1nat
        } else {
            0nat
        }
    }
}

/// A count never exceeds the number of steps.
pub proof fn lemma_count_steps_bound(steps: Seq<MigrationStep>, moved: bool)
    ensures
        count_steps(steps, moved) <= steps.len(),
    decreases steps.len(),
{
    if steps.len() > 0 {
        lemma_count_steps_bound(steps.drop_last(), moved);
    }
}

/// The result of moving the attachment directory from `old_dir` to `new_dir`:
/// how many files moved, how many were kept because of a clash, and the
/// backup directory `backup_dir` when there was a clash (empty otherwise).
pub fn migration_tally(
    old_dir: String,
    new_dir: String,
    steps: &Vec<MigrationStep>,
    backup_dir: String,
) -> (r: AttachmentMigrateResult)
    requires
        steps@.len() <= u32::MAX,
    ensures
        r.old_dir == old_dir,
        r.new_dir == new_dir,
        r.moved == count_steps(steps@, true),
        r.skipped == count_steps(steps@, false),
        count_steps(steps@, false) > 0 ==> r.backup_dir == backup_dir,
        count_steps(steps@, false) == 0 ==> r.backup_dir@.len() == 0,
{
    let mut moved: u32 = 0;
    let mut skipped: u32 = 0;
    let mut i: usize = 0;
    while i < steps.len()
        invariant
            i <= steps@.len() <= u32::MAX,
            moved == count_steps(steps@.take(i as int), true),
            skipped == count_steps(steps@.take(i as int), false),
        decreases steps@.len() - i,
    {
        proof {
            let t = steps@.take(i + 1);
            assert(t.drop_last() =~= steps@.take(i as int));
            lemma_count_steps_bound(steps@.take(i as int), true);
            lemma_count_steps_bound(steps@.take(i as int), false);
        }
        match &steps[i] {
            MigrationStep::Moved => {
                moved = moved + 1;
            },
            MigrationStep::Kept => {
                skipped = skipped + 1;
            },
            MigrationStep::Absent => {},
        }
        i += 1;
    }
    assert(steps@.take(i as int) =~= steps@);
    let backup = if skipped > 0 {
        backup_dir
    } else {
        String::new()
    };
    AttachmentMigrateResult { old_dir, new_dir, moved, skipped, backup_dir: backup }
}


// ---------------------------------------------------------------------------
// Laws
// ---------------------------------------------------------------------------

/// Trimming twice trims no more than trimming once.
pub proof fn lemma_trim_idempotent(s: Seq<char>)
    ensures
        trimmed(trimmed(s)) == trimmed(s),
{
    lemma_strip_start_stable(s);
    lemma_strip_end_keeps_start(strip_start(s));
    lemma_strip_end_stable(strip_start(s));
}

proof fn lemma_strip_start_stable(s: Seq<char>)
    ensures
        strip_start(s).len() == 0 || !is_white_space(strip_start(s)[0]),
        strip_start(strip_start(s)) == strip_start(s),
    decreases s.len(),
{
    if s.len() > 0 && is_white_space(s[0]) {
        lemma_strip_start_stable(s.drop_first());
    }
}

proof fn lemma_strip_end_stable(s: Seq<char>)
    ensures
        strip_end(s).len() == 0 || !is_white_space(strip_end(s).last()),
        strip_end(strip_end(s)) == strip_end(s),
    decreases s.len(),
{
    if s.len() > 0 && is_white_space(s.last()) {
        lemma_strip_end_stable(s.drop_last());
    }
}

/// Stripping the end of a text that starts with no white space leaves a text
/// that starts with none.
proof fn lemma_strip_end_keeps_start(s: Seq<char>)
    requires
        s.len() == 0 || !is_white_space(s[0]),
    ensures
        strip_end(s).len() == 0 || !is_white_space(strip_end(s)[0]),
        strip_start(strip_end(s)) == strip_end(s),
    decreases s.len(),
{
    if s.len() > 0 && is_white_space(s.last()) {
        if s.len() > 1 {
            assert(s.drop_last()[0] == s[0]);
        }
        lemma_strip_end_keeps_start(s.drop_last());
    }
}

/// A folder once created is listed, and creating it again is refused as taken.
pub proof fn lemma_create_then_taken(d: AppData, d2: AppData, folder: Seq<char>)
    requires
        new_folder_result(d, folder) is Ok,
        folder_names(d2) == folder_names(d).push(new_folder_result(d, folder)->Ok_0),
    ensures
        folder_names(d2).contains(trimmed(folder)),
        new_folder_result(d2, folder) == Err::<Seq<char>, Seq<char>>(
            "文件夹已存在: "@ + trimmed(folder),
        ),
{
    assert(folder_names(d2)[folder_names(d).len() as int] == trimmed(folder));
}

/// Renaming a listed folder to a different name lists the new name and no
/// longer the old one.
pub proof fn lemma_rename_replaces(names: Seq<Seq<char>>, from: Seq<char>, to: Seq<char>)
    requires
        from != to,
        names.contains(from),
    ensures
        names.map_values(|f: Seq<char>| if f == from { to } else { f }).contains(to),
        !names.map_values(|f: Seq<char>| if f == from { to } else { f }).contains(from),
{
    let m = names.map_values(|f: Seq<char>| if f == from { to } else { f });
    let w = choose|w: int| 0 <= w < names.len() && names[w] == from;
    assert(m[w] == to);
    if m.contains(from) {
        let v = choose|v: int| 0 <= v < m.len() && m[v] == from;
        assert(m[v] == (if names[v] == from { to } else { names[v] }));
    }
}

/// A deleted folder is no longer listed.
pub proof fn lemma_deleted_folder_gone(folders: Seq<String>, name: Seq<char>)
    ensures
        !names_view(folders.filter(not_named(name))).contains(name),
{
    let kept = folders.filter(not_named(name));
    if names_view(kept).contains(name) {
        let w = choose|w: int| 0 <= w < names_view(kept).len() && names_view(kept)[w] == name;
        assert(not_named(name)(kept[w]));
    }
}

/// Linking a note to an attachment and unlinking it again leaves the links
/// the attachment had, less that note.
pub proof fn lemma_link_unlink(ns: Seq<u64>, note_id: u64)
    ensures
        (if ns.contains(note_id) { ns } else { ns.push(note_id) }).filter(|n: u64| n != note_id)
            == ns.filter(|n: u64| n != note_id),
{
    let pred = |n: u64| n != note_id;
    if !ns.contains(note_id) {
        reveal(Seq::filter);
        assert(ns.push(note_id).drop_last() =~= ns);
        assert(ns.push(note_id).filter(pred) == ns.filter(pred));
    }
}

} // verus!

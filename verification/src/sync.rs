//! What a sync does to the store: merging remote data in, pulling a backup,
//! restoring settings, completing attachment records from the remote listing,
//! and the reports the sync commands give back.

use vstd::prelude::*;
use vstd::string::*;
use crate::commands::{decimal, decimal_text, join, join_strings};
use crate::seq_facts::{lemma_filter_take_step, lemma_take_full};
use vstd::utf8::*;
use crate::codec::{gunzip_text, gunzip_to_string, is_json, json_is_valid, string_from_utf8};
use crate::crypto::{aes_gcm_name, decrypt, decrypt_key_fits, decrypt_text, default_algorithm};
use crate::webdav::{
    decode_href, decoded_name, download_result, enc_alg, enc_alg_name, encrypts, has_name,
    names_view, download_key_fits, sync_download_payload, text_result,
};
use crate::models::{
    AppData, Attachment, RemoteAttachment, SettingsData, WebdavConfig, add_new_only, add_new_summaries, added_new,
    added_new_titles, apply_sync_scope, merge_by_id, merge_summaries, merged_by_id, scoped_to,
};

verus! {

// ---------------------------------------------------------------------------
// Merging and pulling
// ---------------------------------------------------------------------------

/// `after` is `before` with the remote data `remote` merged in: by identifier
/// for every collection (see `merged_by_id`), by title for summaries; the
/// settings and counters stay local.
pub open spec fn merged_into(before: AppData, remote: AppData, after: AppData) -> bool {
    &&& merged_by_id(before.notes@, remote.notes@, after.notes@)
    &&& added_new_titles(before.summaries@, remote.summaries@, after.summaries@)
    &&& merged_by_id(before.clips@, remote.clips@, after.clips@)
    &&& merged_by_id(before.questions@, remote.questions@, after.questions@)
    &&& merged_by_id(before.flashcards@, remote.flashcards@, after.flashcards@)
    &&& merged_by_id(before.attachments@, remote.attachments@, after.attachments@)
    &&& merged_by_id(before.tasks.todo@, remote.tasks.todo@, after.tasks.todo@)
    &&& merged_by_id(before.tasks.doing@, remote.tasks.doing@, after.tasks.doing@)
    &&& merged_by_id(before.tasks.done@, remote.tasks.done@, after.tasks.done@)
    &&& after == (AppData {
        notes: after.notes,
        summaries: after.summaries,
        clips: after.clips,
        questions: after.questions,
        flashcards: after.flashcards,
        attachments: after.attachments,
        tasks: after.tasks,
        ..before
    })
}

/// Merges the remote data `remote` into `local`; see `merged_into`.
pub fn merge_into_local(local: &mut AppData, remote: AppData)
    ensures
        merged_into(*old(local), remote, *final(local)),
{
    merge_by_id(&mut local.notes, remote.notes);
    merge_summaries(&mut local.summaries, remote.summaries);
    merge_by_id(&mut local.clips, remote.clips);
    merge_by_id(&mut local.questions, remote.questions);
    merge_by_id(&mut local.flashcards, remote.flashcards);
    merge_by_id(&mut local.attachments, remote.attachments);
    merge_by_id(&mut local.tasks.todo, remote.tasks.todo);
    merge_by_id(&mut local.tasks.doing, remote.tasks.doing);
    merge_by_id(&mut local.tasks.done, remote.tasks.done);
}

/// `s` when its category is synced, else nothing.
pub open spec fn scope_seq<T>(on: bool, s: Seq<T>) -> Seq<T> {
    if on {
        s
    } else {
        Seq::empty()
    }
}

/// `after` is what pulling the backup `remote` into `before` under `cfg`
/// gives. In mode `overwrite` the backup, restricted to the synced
/// categories, replaces the store, except for the local sync settings and
/// directories. In any other mode only the items that are new by identifier
/// (by title for summaries) are added from the synced categories; attachment
/// records are always taken.
pub open spec fn pulled_into(before: AppData, remote: AppData, cfg: WebdavConfig, after: AppData) -> bool {
    if cfg.pull_mode@ == "overwrite"@ {
        scoped_to(
            after,
            AppData {
                webdav_config: before.webdav_config,
                data_dir: before.data_dir,
                attachment_dir: before.attachment_dir,
                ..remote
            },
            cfg,
        )
    } else {
        &&& added_new(before.notes@, scope_seq(cfg.sync_notes, remote.notes@), after.notes@)
        &&& added_new_titles(
            before.summaries@,
            scope_seq(cfg.sync_summaries, remote.summaries@),
            after.summaries@,
        )
        &&& added_new(before.clips@, scope_seq(cfg.sync_clips, remote.clips@), after.clips@)
        &&& added_new(before.questions@, scope_seq(cfg.sync_questions, remote.questions@), after.questions@)
        &&& added_new(
            before.flashcards@,
            scope_seq(cfg.sync_flashcards, remote.flashcards@),
            after.flashcards@,
        )
        &&& added_new(before.attachments@, remote.attachments@, after.attachments@)
        &&& added_new(before.tasks.todo@, scope_seq(cfg.sync_tasks, remote.tasks.todo@), after.tasks.todo@)
        &&& added_new(before.tasks.doing@, scope_seq(cfg.sync_tasks, remote.tasks.doing@), after.tasks.doing@)
        &&& added_new(before.tasks.done@, scope_seq(cfg.sync_tasks, remote.tasks.done@), after.tasks.done@)
        &&& after == (AppData {
            notes: after.notes,
            summaries: after.summaries,
            clips: after.clips,
            questions: after.questions,
            flashcards: after.flashcards,
            attachments: after.attachments,
            tasks: after.tasks,
            ..before
        })
    }
}

/// Pulls the backup `remote` into `local` as `cfg.pull_mode` says; see `pulled_into`.
pub fn apply_pull(local: &mut AppData, remote: AppData, cfg: &WebdavConfig)
    ensures
        pulled_into(*old(local), remote, *cfg, *final(local)),
{
    if crate::crypto::str_eq(cfg.pull_mode.as_str(), "overwrite") {
        let mut imported = apply_sync_scope(remote, cfg);
        std::mem::swap(&mut imported.webdav_config, &mut local.webdav_config);
        std::mem::swap(&mut imported.data_dir, &mut local.data_dir);
        std::mem::swap(&mut imported.attachment_dir, &mut local.attachment_dir);
        *local = imported;
    } else {
        let scoped = apply_sync_scope(remote, cfg);
        add_new_only(&mut local.notes, scoped.notes);
        add_new_summaries(&mut local.summaries, scoped.summaries);
        add_new_only(&mut local.clips, scoped.clips);
        add_new_only(&mut local.questions, scoped.questions);
        add_new_only(&mut local.flashcards, scoped.flashcards);
        add_new_only(&mut local.attachments, scoped.attachments);
        add_new_only(&mut local.tasks.todo, scoped.tasks.todo);
        add_new_only(&mut local.tasks.doing, scoped.tasks.doing);
        add_new_only(&mut local.tasks.done, scoped.tasks.done);
    }
}

/// Restores the settings downloaded from the cloud: the AI endpoint and the
/// shortcuts; nothing else changes.
pub fn apply_settings(data: &mut AppData, settings: SettingsData)
    ensures
        *final(data) == (AppData {
            ai_config: settings.ai_config,
            shortcuts: settings.shortcuts,
            ..*old(data)
        }),
{
    data.ai_config = settings.ai_config;
    data.shortcuts = settings.shortcuts;
}


// ---------------------------------------------------------------------------
// Attachment records from the remote listing
// ---------------------------------------------------------------------------

/// `n` is the file name of one of `atts`, or the decoded form of one.
pub open spec fn known_name(atts: Seq<Attachment>, n: Seq<char>) -> bool {
    exists|j: int|
        0 <= j < atts.len() && (#[trigger] atts[j].filename@ == n || decoded_name(atts[j].filename@)
            == n)
}

/// The remote file `name` is recorded among `atts`, by its name or by its
/// decoded name.
pub open spec fn recorded(atts: Seq<Attachment>, name: Seq<char>) -> bool {
    known_name(atts, name) || known_name(atts, decoded_name(name))
}

/// `a` is the record made for the remote file `r` under identifier `id`: in
/// no folder, linked to no note, without dates.
pub open spec fn record_of(a: Attachment, r: RemoteAttachment, id: u64) -> bool {
    &&& a.id == id
    &&& a.filename@ == r.filename@
    &&& a.size == r.size
    &&& a.note_ids@.len() == 0
    &&& a.folder@.len() == 0
    &&& a.created@.len() == 0
    &&& a.date@.len() == 0
}

/// The positions `0..n`.
pub open spec fn positions(n: nat) -> Seq<int> {
    Seq::new(n, |i: int| i)
}

/// The remote entries that `atts` does not record yet.
pub open spec fn not_recorded(atts: Seq<Attachment>, remote: Seq<RemoteAttachment>) -> spec_fn(int) -> bool {
    |i: int| !recorded(atts, remote[i].filename@)
}

/// The positions of the remote entries that `atts` does not record, in order.
pub open spec fn unrecorded(atts: Seq<Attachment>, remote: Seq<RemoteAttachment>) -> Seq<int> {
    positions(remote.len()).filter(not_recorded(atts, remote))
}

/// The file names of `atts` and their decoded forms.
fn known_names(atts: &Vec<Attachment>) -> (r: Vec<String>)
    ensures
        forall|x: Seq<char>| names_view(r@).contains(x) <==> known_name(atts@, x),
{
    let mut out: Vec<String> = Vec::new();
    let mut i: usize = 0;
    while i < atts.len()
        invariant
            i <= atts@.len(),
            forall|x: Seq<char>| names_view(out@).contains(x) <==> known_name(atts@.take(i as int), x),
        decreases atts@.len() - i,
    {
        let ghost before = out@;
        out.push(atts[i].filename.clone());
        out.push(decode_href(atts[i].filename.as_str()));
        proof {
            let t = atts@.take(i + 1);
            assert(names_view(out@) =~= names_view(before).push(atts@[i as int].filename@).push(
                decoded_name(atts@[i as int].filename@),
            ));
            assert forall|x: Seq<char>| names_view(out@).contains(x) <==> known_name(t, x) by {
                if names_view(out@).contains(x) {
                    let w = choose|w: int| 0 <= w < names_view(out@).len() && names_view(out@)[w] == x;
                    if w < before.len() {
                        assert(names_view(before)[w] == x);
                        assert(names_view(before).contains(x));
                        assert(known_name(atts@.take(i as int), x));
                        let j = choose|j: int|
                            0 <= j < i && (#[trigger] atts@.take(i as int)[j].filename@ == x
                                || decoded_name(atts@.take(i as int)[j].filename@) == x);
                        assert(t[j] == atts@.take(i as int)[j]);
                    } else {
                        assert(t[i as int] == atts@[i as int]);
                    }
                }
                if known_name(t, x) {
                    let j = choose|j: int|
                        0 <= j < i + 1 && (#[trigger] t[j].filename@ == x || decoded_name(t[j].filename@)
                            == x);
                    if j < i {
                        assert(atts@.take(i as int)[j] == t[j]);
                        assert(known_name(atts@.take(i as int), x));
                        assert(names_view(before).contains(x));
                        let w = choose|w: int| 0 <= w < names_view(before).len() && names_view(before)[w] == x;
                        assert(names_view(before).push(atts@[i as int].filename@).push(
                            decoded_name(atts@[i as int].filename@),
                        )[w] == x);
                        assert(names_view(out@)[w] == x);
                    } else if t[j].filename@ == x {
                        assert(names_view(out@)[before.len() as int] == x);
                    } else {
                        assert(names_view(out@)[before.len() as int + 1] == x);
                    }
                }
            }
        }
        i += 1;
    }
    assert(atts@.take(i as int) =~= atts@);
    out
}

/// `after` is `atts` followed by a record for each remote entry that `atts`
/// does not record, in listing order, the record for the entry at position
/// `i` taking identifier `ids[i]`.
pub open spec fn reconciled(
    atts: Seq<Attachment>,
    remote: Seq<RemoteAttachment>,
    ids: Seq<u64>,
    after: Seq<Attachment>,
) -> bool {
    &&& after.len() == atts.len() + unrecorded(atts, remote).len()
    &&& after.take(atts.len() as int) == atts
    &&& forall|k: int|
        0 <= k < unrecorded(atts, remote).len() ==> record_of(
            #[trigger] after[atts.len() + k],
            remote[unrecorded(atts, remote)[k]],
            ids[unrecorded(atts, remote)[k]],
        )
}

/// Once completed from the remote listing, the records record every remote
/// file, by its name or its decoded name.
pub proof fn lemma_reconcile_records_all(
    atts: Seq<Attachment>,
    remote: Seq<RemoteAttachment>,
    ids: Seq<u64>,
    after: Seq<Attachment>,
)
    requires
        reconciled(atts, remote, ids, after),
    ensures
        forall|i: int| 0 <= i < remote.len() ==> recorded(after, #[trigger] remote[i].filename@),
{
    let n = atts.len();
    let pred = not_recorded(atts, remote);
    let u = unrecorded(atts, remote);
    assert forall|i: int| 0 <= i < remote.len() implies recorded(after, #[trigger] remote[i].filename@) by {
        let name = remote[i].filename@;
        if recorded(atts, name) {
            if known_name(atts, name) {
                let j = choose|j: int|
                    0 <= j < atts.len() && (#[trigger] atts[j].filename@ == name || decoded_name(
                        atts[j].filename@,
                    ) == name);
                assert(after.take(n as int)[j] == after[j]);
                assert(known_name(after, name));
            } else {
                let d = decoded_name(name);
                let j = choose|j: int|
                    0 <= j < atts.len() && (#[trigger] atts[j].filename@ == d || decoded_name(
                        atts[j].filename@,
                    ) == d);
                assert(after.take(n as int)[j] == after[j]);
                assert(known_name(after, d));
            }
        } else {
            assert(pred(i));
            assert(positions(remote.len())[i] == i);
            positions(remote.len()).lemma_filter_contains(pred, i);
            let k = choose|k: int| 0 <= k < u.len() && u[k] == i;
            assert(record_of(after[n + k], remote[u[k]], ids[u[k]]));
            assert(after[n + k].filename@ == name);
            assert(known_name(after, name));
        }
    }
}

/// Completes the attachment records from the remote listing: each remote file
/// that no record names, by name or decoded name, gets a new record at the
/// end, in listing order; the record for the remote entry at position `i`
/// takes identifier `ids[i]`.
pub fn reconcile_attachments(
    attachments: Vec<Attachment>,
    remote: &Vec<RemoteAttachment>,
    ids: &Vec<u64>,
) -> (r: Vec<Attachment>)
    requires
        ids@.len() >= remote@.len(),
    ensures
        reconciled(attachments@, remote@, ids@, r@),
{
    let known = known_names(&attachments);
    let ghost atts = attachments@;
    let ghost n = atts.len();
    let ghost all = positions(remote@.len());
    let ghost pred = not_recorded(atts, remote@);
    let mut out = attachments;
    let mut i: usize = 0;
    while i < remote.len()
        invariant
            i <= remote@.len(),
            ids@.len() >= remote@.len(),
            n == atts.len(),
            all == positions(remote@.len()),
            pred == not_recorded(atts, remote@),
            forall|x: Seq<char>| names_view(known@).contains(x) <==> known_name(atts, x),
            out@.len() == n + all.take(i as int).filter(pred).len(),
            out@.take(n as int) == atts,
            forall|k: int|
                0 <= k < all.take(i as int).filter(pred).len() ==> record_of(
                    #[trigger] out@[n + k],
                    remote@[all.take(i as int).filter(pred)[k]],
                    ids@[all.take(i as int).filter(pred)[k]],
                ),
        decreases remote@.len() - i,
    {
        proof {
            lemma_filter_take_step(all, i as int, pred);
            assert(all[i as int] == i);
        }
        let name = &remote[i].filename;
        let dec = decode_href(name.as_str());
        let ghost before = out@;
        if !has_name(known.as_slice(), name) && !has_name(known.as_slice(), &dec) {
            let rec = Attachment {
                id: ids[i],
                filename: name.clone(),
                size: remote[i].size,
                note_ids: Vec::new(),
                folder: String::new(),
                created: String::new(),
                date: String::new(),
            };
            out.push(rec);
            proof {
                assert(pred(i as int));
                assert(out@.take(n as int) =~= before.take(n as int));
                let f = all.take(i + 1).filter(pred);
                assert forall|k: int| 0 <= k < f.len() implies record_of(
                    #[trigger] out@[n + k],
                    remote@[f[k]],
                    ids@[f[k]],
                ) by {
                    if k < f.len() - 1 {
                        assert(out@[n + k] == before[n + k]);
                    }
                }
            }
        } else {
            proof {
                assert(!pred(i as int));
            }
        }
        i += 1;
    }
    proof {
        lemma_take_full(all);
    }
    out
}

/// `s` with every record dropped whose file name, or decoded file name, is
/// among `seen` or among those of an earlier record that was kept.
pub open spec fn dedup_from(s: Seq<Attachment>, seen: Set<Seq<char>>) -> Seq<Attachment>
    decreases s.len(),
{
    if s.len() == 0 {
        s
    } else {
        let raw = s[0].filename@;
        let dec = decoded_name(raw);
        if seen.contains(raw) || seen.contains(dec) {
            dedup_from(s.drop_first(), seen)
        } else {
            seq![s[0]] + dedup_from(s.drop_first(), seen.insert(raw).insert(dec))
        }
    }
}

/// Drops the attachment records that repeat an earlier kept record's file,
/// comparing file names and decoded file names; see `dedup_from`.
pub fn dedup_attachments(attachments: Vec<Attachment>) -> (r: Vec<Attachment>)
    ensures
        r@ == dedup_from(attachments@, Set::empty()),
{
    let mut rest = attachments;
    let ghost orig = rest@;
    let mut out: Vec<Attachment> = Vec::new();
    let mut seen: Vec<String> = Vec::new();
    let ghost mut gseen: Set<Seq<char>> = Set::empty();
    while rest.len() > 0
        invariant
            forall|x: Seq<char>| names_view(seen@).contains(x) <==> gseen.contains(x),
            out@ + dedup_from(rest@, gseen) == dedup_from(orig, Set::empty()),
        decreases rest@.len(),
    {
        let ghost r0 = rest@;
        let a = rest.remove(0);
        assert(rest@ =~= r0.drop_first());
        let dec = decode_href(a.filename.as_str());
        if has_name(seen.as_slice(), &a.filename) || has_name(seen.as_slice(), &dec) {
            assert(dedup_from(r0, gseen) == dedup_from(rest@, gseen));
        } else {
            let ghost raw = a.filename@;
            let ghost old_seen = gseen;
            let ghost before_seen = seen@;
            let ghost before_out = out@;
            seen.push(a.filename.clone());
            seen.push(dec);
            proof {
                assert(names_view(seen@) =~= names_view(before_seen).push(raw).push(decoded_name(raw)));
                gseen = gseen.insert(raw).insert(decoded_name(raw));
                assert forall|x: Seq<char>| names_view(seen@).contains(x) <==> gseen.contains(x) by {
                    if names_view(seen@).contains(x) {
                        let w = choose|w: int| 0 <= w < names_view(seen@).len() && names_view(seen@)[w] == x;
                        if w < before_seen.len() {
                            assert(names_view(before_seen)[w] == x);
                        }
                    }
                    if gseen.contains(x) && x != raw && x != decoded_name(raw) {
                        let w = choose|w: int| 0 <= w < names_view(before_seen).len() && names_view(before_seen)[w] == x;
                        assert(names_view(seen@)[w] == x);
                    }
                    if x == raw {
                        assert(names_view(seen@)[before_seen.len() as int] == x);
                    }
                    if x == decoded_name(raw) {
                        assert(names_view(seen@)[before_seen.len() as int + 1] == x);
                    }
                }
            }
            out.push(a);
            assert(out@ + dedup_from(rest@, gseen) =~= before_out + dedup_from(r0, old_seen));
        }
    }
    assert(out@ + dedup_from(rest@, gseen) =~= out@);
    out
}


/// `b` names the file of `a`: its file name or decoded file name is `a`'s file
/// name or decoded file name.
pub open spec fn shares_file(a: Attachment, b: Attachment) -> bool {
    let ra = a.filename@;
    let rb = b.filename@;
    ||| rb == ra
    ||| rb == decoded_name(ra)
    ||| decoded_name(rb) == ra
    ||| decoded_name(rb) == decoded_name(ra)
}

/// After de-duplication no record names the file of an earlier one, and none
/// has a file name or decoded file name among `seen`.
pub proof fn lemma_dedup_distinct(s: Seq<Attachment>, seen: Set<Seq<char>>)
    ensures
        forall|i: int|
            0 <= i < dedup_from(s, seen).len() ==> !seen.contains(
                (#[trigger] dedup_from(s, seen)[i]).filename@,
            ) && !seen.contains(decoded_name(dedup_from(s, seen)[i].filename@)),
        forall|i: int, j: int|
            0 <= i < j < dedup_from(s, seen).len() ==> !shares_file(
                #[trigger] dedup_from(s, seen)[i],
                #[trigger] dedup_from(s, seen)[j],
            ),
    decreases s.len(),
{
    if s.len() > 0 {
        let raw = s[0].filename@;
        let dec = decoded_name(raw);
        if seen.contains(raw) || seen.contains(dec) {
            lemma_dedup_distinct(s.drop_first(), seen);
            assert(dedup_from(s, seen) == dedup_from(s.drop_first(), seen));
        } else {
            let seen2 = seen.insert(raw).insert(dec);
            lemma_dedup_distinct(s.drop_first(), seen2);
            let rest = dedup_from(s.drop_first(), seen2);
            let r = dedup_from(s, seen);
            assert(r == seq![s[0]] + rest);
            assert forall|i: int, j: int| 0 <= i < j < r.len() implies !shares_file(
                #[trigger] r[i],
                #[trigger] r[j],
            ) by {
                assert(r[j] == rest[j - 1]);
                if i > 0 {
                    assert(r[i] == rest[i - 1]);
                } else {
                    assert(!seen2.contains(rest[j - 1].filename@));
                    assert(!seen2.contains(decoded_name(rest[j - 1].filename@)));
                }
            }
            assert forall|i: int| 0 <= i < r.len() implies !seen.contains(
                (#[trigger] r[i]).filename@,
            ) && !seen.contains(decoded_name(r[i].filename@)) by {
                if i > 0 {
                    assert(r[i] == rest[i - 1]);
                }
            }
        }
    }
}

/// De-duplication forgets no file: every record's file is still recorded,
/// by its name or decoded name, unless `seen` already held it.
pub proof fn lemma_dedup_keeps_files(s: Seq<Attachment>, seen: Set<Seq<char>>)
    ensures
        forall|i: int|
            0 <= i < s.len() ==> {
                let x = (#[trigger] s[i]).filename@;
                seen.contains(x) || seen.contains(decoded_name(x)) || recorded(dedup_from(s, seen), x)
            },
    decreases s.len(),
{
    if s.len() > 0 {
        let raw = s[0].filename@;
        let dec = decoded_name(raw);
        let rest = s.drop_first();
        if seen.contains(raw) || seen.contains(dec) {
            lemma_dedup_keeps_files(rest, seen);
            assert(dedup_from(s, seen) == dedup_from(rest, seen));
            assert forall|i: int| 0 <= i < s.len() implies {
                let x = (#[trigger] s[i]).filename@;
                seen.contains(x) || seen.contains(decoded_name(x)) || recorded(dedup_from(s, seen), x)
            } by {
                if i > 0 {
                    assert(s[i] == rest[i - 1]);
                }
            }
        } else {
            let seen2 = seen.insert(raw).insert(dec);
            lemma_dedup_keeps_files(rest, seen2);
            let tail = dedup_from(rest, seen2);
            let r = dedup_from(s, seen);
            assert(r == seq![s[0]] + tail);
            assert(r[0] == s[0]);
            assert forall|i: int| 0 <= i < s.len() implies {
                let x = (#[trigger] s[i]).filename@;
                seen.contains(x) || seen.contains(decoded_name(x)) || recorded(r, x)
            } by {
                let x = s[i].filename@;
                if i == 0 {
                    assert(known_name(r, x));
                } else {
                    assert(s[i] == rest[i - 1]);
                    let dx = decoded_name(x);
                    if x == raw || x == dec {
                        assert(known_name(r, x));
                    } else if dx == raw || dx == dec {
                        assert(known_name(r, dx));
                    } else if recorded(tail, x) {
                        if known_name(tail, x) {
                            let j = choose|j: int|
                                0 <= j < tail.len() && (#[trigger] tail[j].filename@ == x
                                    || decoded_name(tail[j].filename@) == x);
                            assert(r[j + 1] == tail[j]);
                            assert(known_name(r, x));
                        } else {
                            let j = choose|j: int|
                                0 <= j < tail.len() && (#[trigger] tail[j].filename@ == dx
                                    || decoded_name(tail[j].filename@) == dx);
                            assert(r[j + 1] == tail[j]);
                            assert(known_name(r, dx));
                        }
                    }
                }
            }
        }
    }
}

// ---------------------------------------------------------------------------
// Reports
// ---------------------------------------------------------------------------

/// The report of a pull: done, and either how many attachment files failed
/// to download (when files are synced and some failed) or that the records
/// came without their files (when files are not synced and there are
/// records).
pub open spec fn pull_report(sync_attachments: bool, failed: nat, total: nat) -> Seq<char> {
    "拉取完成：云端数据已合并到本地"@ + if sync_attachments && failed > 0 {
        "；"@ + decimal(failed) + " 个附件文件未下载（详见进度提示）"@
    } else if !sync_attachments && total > 0 {
        "；附件记录已同步，文件未下载（可在设置开启「资料文件」同步）"@
    } else {
        seq![]
    }
}

/// The report of a pull; see `pull_report`.
pub fn pull_summary(sync_attachments: bool, failed: u64, total: u64) -> (r: String)
    ensures
        r@ == pull_report(sync_attachments, failed as nat, total as nat),
{
    let mut out = String::from_str("拉取完成：云端数据已合并到本地");
    if sync_attachments && failed > 0 {
        out.append("；");
        let n = decimal_text(failed);
        out.append(n.as_str());
        out.append(" 个附件文件未下载（详见进度提示）");
    } else if !sync_attachments && total > 0 {
        out.append("；附件记录已同步，文件未下载（可在设置开启「资料文件」同步）");
    }
    proof {
        assert(out@ =~= pull_report(sync_attachments, failed as nat, total as nat));
    }
    out
}


/// How the settings upload of a sync went.
pub enum SettingsUpload {
    /// Settings sync is off.
    Disabled,
    /// Uploaded, with the upload's message.
    Sent(String),
    /// Not uploaded, with the reason.
    Failed(String),
}

/// How the upload of one attachment file went.
pub enum AttachmentUpload {
    /// The local file is missing.
    Missing,
    /// The upload failed, with the reason.
    Failed(String),
    /// The upload was accepted, with its message; `confirmed` tells whether
    /// the server then listed the file.
    Sent { message: String, confirmed: bool },
}

/// The report line of the settings upload.
pub open spec fn settings_line(s: SettingsUpload) -> Seq<char> {
    match s {
        SettingsUpload::Disabled => "设置同步已关闭，跳过"@,
        SettingsUpload::Sent(m) => m@,
        SettingsUpload::Failed(e) => "设置上传跳过（"@ + e@ + "）"@,
    }
}

/// The report line of the upload of attachment file `name`.
pub open spec fn attachment_line(name: Seq<char>, o: AttachmentUpload) -> Seq<char> {
    match o {
        AttachmentUpload::Missing => "附件 "@ + name + " 本地文件缺失，跳过"@,
        AttachmentUpload::Failed(e) => "附件 "@ + name + " 上传跳过（"@ + e@ + "）"@,
        AttachmentUpload::Sent { message, confirmed } => if confirmed {
            message@ + "（已确认云端存在）"@
        } else {
            "附件 "@ + name
                + " 上传返回成功，但服务端校验未找到该文件（云盘可能不显示 WebDAV 上传的文件，请用 WebDAV 客户端如 RaiDrive 查看）"@
        },
    }
}

/// The upload of an attachment file was confirmed by the server.
pub open spec fn confirmed_upload(o: AttachmentUpload) -> bool {
    o matches AttachmentUpload::Sent { confirmed, .. } && confirmed
}

/// The warning given when no attachment file made it to the server.
pub open spec fn none_uploaded_warning() -> Seq<char> {
    "⚠ 所有附件均未能上传，请检查 WebDAV 账号密码（需使用服务商提供的专用应用密码，而非登录密码）"@
}

/// The lines of the report of the settings and attachment uploads that follow
/// a sync: the settings line; then, when attachment files are synced, either
/// that there are none or a line per file, and the warning when none was
/// confirmed.
pub open spec fn upload_lines(
    settings: SettingsUpload,
    sync_attachments: bool,
    names: Seq<Seq<char>>,
    outcomes: Seq<AttachmentUpload>,
) -> Seq<Seq<char>> {
    seq![settings_line(settings)] + if !sync_attachments {
        Seq::empty()
    } else if names.len() == 0 {
        seq!["无附件需要上传"@]
    } else {
        Seq::new(names.len(), |i: int| attachment_line(names[i], outcomes[i])) + if exists|i: int|
            0 <= i < outcomes.len() && #[trigger] confirmed_upload(outcomes[i]) {
            Seq::empty()
        } else {
            seq![none_uploaded_warning()]
        }
    }
}

/// The report line of the upload of attachment file `name`.
fn attachment_report_line(name: &String, o: &AttachmentUpload) -> (r: String)
    ensures
        r@ == attachment_line(name@, *o),
{
    let mut out = String::new();
    match o {
        AttachmentUpload::Missing => {
            out.append("附件 ");
            out.append(name.as_str());
            out.append(" 本地文件缺失，跳过");
        },
        AttachmentUpload::Failed(e) => {
            out.append("附件 ");
            out.append(name.as_str());
            out.append(" 上传跳过（");
            out.append(e.as_str());
            out.append("）");
        },
        AttachmentUpload::Sent { message, confirmed } => {
            if *confirmed {
                out.append(message.as_str());
                out.append("（已确认云端存在）");
            } else {
                out.append("附件 ");
                out.append(name.as_str());
                out.append(
                    " 上传返回成功，但服务端校验未找到该文件（云盘可能不显示 WebDAV 上传的文件，请用 WebDAV 客户端如 RaiDrive 查看）",
                );
            }
        },
    }
    proof {
        assert(out@ =~= attachment_line(name@, *o));
    }
    out
}

/// The report of the settings and attachment uploads that follow a sync: the
/// lines of `upload_lines`, separated by `；`. `names[i]` is the file name of
/// the `i`-th attachment and `outcomes[i]` how its upload went.
pub fn upload_summary(
    settings: SettingsUpload,
    sync_attachments: bool,
    names: &Vec<String>,
    outcomes: &Vec<AttachmentUpload>,
) -> (r: String)
    requires
        names@.len() == outcomes@.len(),
    ensures
        r@ == join(upload_lines(settings, sync_attachments, names_view(names@), outcomes@), "；"@),
{
    let ghost sl = settings_line(settings);
    let first = match settings {
        SettingsUpload::Disabled => String::from_str("设置同步已关闭，跳过"),
        SettingsUpload::Sent(m) => m,
        SettingsUpload::Failed(e) => {
            let mut t = String::from_str("设置上传跳过（");
            t.append(e.as_str());
            t.append("）");
            t
        },
    };
    assert(first@ =~= sl);
    let mut lines: Vec<String> = Vec::new();
    lines.push(first);
    let ghost head = names_view(lines@);
    assert(head =~= seq![sl]);
    if sync_attachments {
        if names.len() == 0 {
            lines.push(String::from_str("无附件需要上传"));
        } else {
            let mut any_confirmed = false;
            let mut i: usize = 0;
            while i < names.len()
                invariant
                    names@.len() == outcomes@.len(),
                    i <= names@.len(),
                    names_view(lines@) == head + Seq::new(
                        i as nat,
                        |k: int| attachment_line(names_view(names@)[k], outcomes@[k]),
                    ),
                    any_confirmed == exists|k: int| 0 <= k < i && #[trigger] confirmed_upload(outcomes@[k]),
                decreases names@.len() - i,
            {
                let ghost before = names_view(lines@);
                let line = attachment_report_line(&names[i], &outcomes[i]);
                let ghost lv = line@;
                lines.push(line);
                match &outcomes[i] {
                    AttachmentUpload::Sent { confirmed, .. } => {
                        if *confirmed {
                            any_confirmed = true;
                            assert(confirmed_upload(outcomes@[i as int]));
                        }
                    },
                    _ => {},
                }
                proof {
                    assert(names_view(lines@) =~= before.push(lv));
                    assert(names_view(names@)[i as int] == names@[i as int]@);
                    assert(names_view(lines@) =~= head + Seq::new(
                        (i + 1) as nat,
                        |k: int| attachment_line(names_view(names@)[k], outcomes@[k]),
                    ));
                    if any_confirmed {
                        if !confirmed_upload(outcomes@[i as int]) {
                            let w = choose|k: int| 0 <= k < i && #[trigger] confirmed_upload(outcomes@[k]);
                            assert(0 <= w < i + 1 && confirmed_upload(outcomes@[w]));
                        }
                    } else {
                        assert forall|k: int| 0 <= k < i + 1 implies !confirmed_upload(#[trigger] outcomes@[k]) by {
                            if k < i {
                            }
                        }
                    }
                }
                i += 1;
            }
            let ghost body = names_view(lines@);
            if !any_confirmed {
                lines.push(String::from_str(
                    "⚠ 所有附件均未能上传，请检查 WebDAV 账号密码（需使用服务商提供的专用应用密码，而非登录密码）",
                ));
                proof {
                    reveal_strlit("⚠ 所有附件均未能上传，请检查 WebDAV 账号密码（需使用服务商提供的专用应用密码，而非登录密码）");
                    assert(names_view(lines@) =~= body.push(none_uploaded_warning()));
                }
            }
            proof {
                let u = upload_lines(settings, sync_attachments, names_view(names@), outcomes@);
                let ex = exists|k: int| 0 <= k < outcomes@.len() && #[trigger] confirmed_upload(outcomes@[k]);
                assert(ex == any_confirmed);
                assert(names_view(lines@) =~= u);
            }
        }
    }
    proof {
        let u = upload_lines(settings, sync_attachments, names_view(names@), outcomes@);
        assert(names_view(lines@) =~= u);
    }
    join_strings(&lines, "；")
}

/// The message of a manual attachment upload: the upload's message and
/// whether the server then listed the file.
pub fn upload_confirmation(message: &str, confirmed: bool) -> (r: String)
    ensures
        r@ == message@ + if confirmed {
            "（已确认云端存在）"@
        } else {
            "（返回成功，但服务端校验未找到，云盘可能不显示 WebDAV 上传的文件）"@
        },
{
    let mut out = String::from_str(message);
    if confirmed {
        out.append("（已确认云端存在）");
    } else {
        out.append("（返回成功，但服务端校验未找到，云盘可能不显示 WebDAV 上传的文件）");
    }
    out
}

/// The message of a sync: the data upload's message, then the report of the
/// uploads that follow it.
pub fn sync_report(upload_message: &str, extras: &str) -> (r: String)
    ensures
        r@ == upload_message@ + "；"@ + extras@,
{
    let mut out = String::from_str(upload_message);
    out.append("；");
    out.append(extras);
    out
}

/// A WebDAV server is configured: address, user and password are all given.
pub open spec fn webdav_ready(cfg: WebdavConfig) -> bool {
    cfg.url@.len() > 0 && cfg.user@.len() > 0 && cfg.pass@.len() > 0
}

/// Whether a WebDAV server is configured; see `webdav_ready`.
pub fn webdav_configured(cfg: &WebdavConfig) -> (r: bool)
    ensures
        r == webdav_ready(*cfg),
{
    !cfg.url.as_str().is_empty() && !cfg.user.as_str().is_empty() && !cfg.pass.as_str().is_empty()
}


// ---------------------------------------------------------------------------
// Checking what is on the server
// ---------------------------------------------------------------------------

/// The algorithm a setting names: `aes256-gcm` when it is empty.
pub open spec fn algorithm_or_default(alg: Seq<char>) -> Seq<char> {
    if alg.len() == 0 {
        aes_gcm_name()
    } else {
        alg
    }
}

/// What the check of the remote backup `raw` against the data password `pass`
/// (and the algorithm setting `alg`, see `algorithm_or_default`) finds: plain gzipped JSON (acceptable only without a password), gzip that
/// is not JSON, or, with a password, a payload that decrypts (its own error
/// otherwise) to gzipped JSON.
pub open spec fn encryption_report(raw: Seq<u8>, pass: Seq<char>, alg: Seq<char>) -> Result<Seq<char>, Seq<char>> {
    match gunzip_text(raw) {
        Ok(text) => if is_json(text) {
            if pass.len() > 0 {
                Err("⚠ 远程文件是未加密的 JSON 格式，加密密码未生效"@)
            } else {
                Ok("ℹ 远程文件是 JSON 格式（未加密）"@)
            }
        } else {
            Err("远程文件是 gzip 格式但内容不是有效 JSON"@)
        },
        Err(_) => if pass.len() == 0 {
            Err("远程文件是加密格式，但未提供密码验证"@)
        } else if !valid_utf8(raw) {
            Err("远程文件既不是 gzip 也不是有效的文本格式"@)
        } else {
            match decrypt_text(raw, encode_utf8(pass), algorithm_or_default(alg)) {
                Err(e) => Err(e),
                Ok(plain) => match gunzip_text(plain) {
                    Ok(text) => if is_json(text) {
                        Ok("✅ 加密验证通过：远程文件已使用 AES-256-GCM 加密，密码正确"@)
                    } else {
                        Err("⚠ 远程文件已加密且密码正确，但解密后数据格式异常"@)
                    },
                    Err(_) => Err("⚠ 远程文件已加密且密码正确，但解密后数据格式异常"@),
                },
            }
        },
    }
}

/// The check of the remote backup succeeds only for plain gzipped JSON with
/// no password given, or, with a password, for a payload that decrypts with
/// it (the algorithm setting, `aes256-gcm` when empty, applying to payloads
/// without a header) to gzipped JSON. A payload that does not decrypt gives
/// the decryption's own error.
pub proof fn lemma_encryption_report(raw: Seq<u8>, pass: Seq<char>, alg: Seq<char>)
    ensures
        encryption_report(raw, pass, alg) is Ok ==> {
            ||| (pass.len() == 0 && (gunzip_text(raw) matches Ok(t) && is_json(t)))
            ||| (pass.len() > 0 && (decrypt_text(
                raw,
                encode_utf8(pass),
                if alg.len() == 0 { "aes256-gcm"@ } else { alg },
            ) matches Ok(plain) && (gunzip_text(plain) matches Ok(t) && is_json(t))))
        },
        pass.len() > 0 && gunzip_text(raw) is Err && valid_utf8(raw) ==> (decrypt_text(
            raw,
            encode_utf8(pass),
            if alg.len() == 0 { "aes256-gcm"@ } else { alg },
        ) matches Err(e) ==> encryption_report(raw, pass, alg) == Err::<Seq<char>, Seq<char>>(e)),
{
    crate::crypto::lemma_algorithm_names();
}

/// Checks the remote backup `raw` against the data password `pass` and the
/// algorithm setting `alg`; see `encryption_report`.
pub fn encryption_verdict(raw: Vec<u8>, pass: &str, alg: &str) -> (r: Result<String, String>)
    requires
        pass@.len() > 0 && valid_utf8(raw@) ==> decrypt_key_fits(
            raw@,
            encode_utf8(pass@),
            algorithm_or_default(alg@),
        ),
    ensures
        text_result(r) == encryption_report(raw@, pass@, alg@),
{
    let ghost b = raw@;
    match gunzip_to_string(raw.as_slice()) {
        Ok(text) => {
            if json_is_valid(text.as_str()) {
                if !pass.is_empty() {
                    Err(String::from_str("⚠ 远程文件是未加密的 JSON 格式，加密密码未生效"))
                } else {
                    Ok(String::from_str("ℹ 远程文件是 JSON 格式（未加密）"))
                }
            } else {
                Err(String::from_str("远程文件是 gzip 格式但内容不是有效 JSON"))
            }
        },
        Err(_) => {
            if pass.is_empty() {
                return Err(String::from_str("远程文件是加密格式，但未提供密码验证"));
            }
            let text = match string_from_utf8(raw) {
                Ok(t) => t,
                Err(_) => {
                    return Err(String::from_str("远程文件既不是 gzip 也不是有效的文本格式"));
                },
            };
            proof {
                decode_utf8_encode_utf8(b);
            }
            let chosen = if alg.is_empty() {
                default_algorithm()
            } else {
                alg
            };
            let plain = match decrypt(text.as_str(), pass, chosen) {
                Ok(p) => p,
                Err(e) => {
                    return Err(e);
                },
            };
            match gunzip_to_string(plain.as_slice()) {
                Ok(t) => {
                    if json_is_valid(t.as_str()) {
                        Ok(String::from_str("✅ 加密验证通过：远程文件已使用 AES-256-GCM 加密，密码正确"))
                    } else {
                        Err(String::from_str("⚠ 远程文件已加密且密码正确，但解密后数据格式异常"))
                    }
                },
                Err(_) => Err(String::from_str("⚠ 远程文件已加密且密码正确，但解密后数据格式异常")),
            }
        },
    }
}

/// Whether the attachments on the server can be checked for encryption: a
/// server is configured, and encryption is on with a password.
pub open spec fn attachment_check_result(cfg: WebdavConfig) -> Result<(), Seq<char>> {
    if !webdav_ready(cfg) {
        Err("未配置 WebDAV，无法校验"@)
    } else if !encrypts(cfg) {
        Err("未启用加密或未设置加密密码，附件将明文上传，无法校验加密"@)
    } else {
        Ok(())
    }
}

/// Whether the attachments on the server can be checked; see `attachment_check_result`.
pub fn attachment_check_ready(cfg: &WebdavConfig) -> (r: Result<(), String>)
    ensures
        match attachment_check_result(*cfg) {
            Ok(()) => r is Ok,
            Err(e) => r is Err && r->Err_0@ == e,
        },
{
    if !webdav_configured(cfg) {
        return Err(String::from_str("未配置 WebDAV，无法校验"));
    }
    if !cfg.encrypt || cfg.enc_pass.as_str().is_empty() {
        return Err(String::from_str("未启用加密或未设置加密密码，附件将明文上传，无法校验加密"));
    }
    Ok(())
}

/// What the check of the downloaded attachment file `name` (its bytes
/// `bytes`) finds: text that decrypts with the data password, or the error
/// for bytes that are not text or do not decrypt.
pub open spec fn attachment_encryption_report(cfg: WebdavConfig, name: Seq<char>, bytes: Seq<u8>) -> Result<Seq<char>, Seq<char>> {
    if !valid_utf8(bytes) {
        Err("云端附件不是有效的文本（疑似非加密二进制）"@)
    } else if decrypt_text(bytes, encode_utf8(cfg.enc_pass@), enc_alg_name(cfg)) is Ok {
        Ok("✅ 校验通过：云端附件「"@ + name + "」已使用 "@ + cfg.enc_algorithm@ + " 加密上传，密码正确"@)
    } else {
        Err("⚠ 云端附件「"@ + name + "」解密失败，可能未加密或密码不匹配"@)
    }
}

/// Checks the downloaded attachment file `name`; see `attachment_encryption_report`.
pub fn attachment_encryption_verdict(cfg: &WebdavConfig, name: &str, bytes: Vec<u8>) -> (r: Result<String, String>)
    requires
        download_key_fits(*cfg, cfg.enc_pass@, bytes@),
    ensures
        text_result(r) == attachment_encryption_report(*cfg, name@, bytes@),
{
    let ghost b = bytes@;
    let text = match string_from_utf8(bytes) {
        Ok(t) => t,
        Err(_) => {
            return Err(String::from_str("云端附件不是有效的文本（疑似非加密二进制）"));
        },
    };
    proof {
        decode_utf8_encode_utf8(b);
    }
    match decrypt(text.as_str(), cfg.enc_pass.as_str(), enc_alg(cfg)) {
        Ok(_) => {
            let mut msg = String::from_str("✅ 校验通过：云端附件「");
            msg.append(name);
            msg.append("」已使用 ");
            msg.append(cfg.enc_algorithm.as_str());
            msg.append(" 加密上传，密码正确");
            Ok(msg)
        },
        Err(_) => {
            let mut msg = String::from_str("⚠ 云端附件「");
            msg.append(name);
            msg.append("」解密失败，可能未加密或密码不匹配");
            Err(msg)
        },
    }
}


// ---------------------------------------------------------------------------
// Listing and fetching attachment files
// ---------------------------------------------------------------------------

/// The first `max` characters of `body`, or all of it when it is shorter.
pub open spec fn preview_text(body: Seq<char>, max: nat) -> Seq<char> {
    if body.len() > max {
        body.take(max as int)
    } else {
        body
    }
}

/// The first `max` characters of `body` (all of it when shorter).
pub fn text_preview(body: &str, max: usize) -> (r: String)
    ensures
        r@ == preview_text(body@, max as nat),
{
    let n = body.unicode_len();
    if n > max {
        String::from_str(body.substring_char(0, max))
    } else {
        String::from_str(body)
    }
}

/// The last character boundary of the UTF-8 text `bytes` at or before `m`.
pub open spec fn last_boundary(bytes: Seq<u8>, m: nat) -> nat
    decreases m,
{
    if m == 0 || is_char_boundary(bytes, m as int) {
        m
    } else {
        last_boundary(bytes, (m - 1) as nat)
    }
}

/// The longest start of `body` that takes at most `max` bytes of UTF-8, cut
/// at a character boundary: all of `body` when it fits.
pub open spec fn byte_preview(body: Seq<char>, max: nat) -> Seq<char> {
    if encode_utf8(body).len() <= max {
        body
    } else {
        decode_utf8(encode_utf8(body).subrange(0, last_boundary(encode_utf8(body), max) as int))
    }
}

/// The start of `body` that fits in `max` bytes; see `byte_preview`.
pub fn body_preview(body: &str, max: usize) -> (r: String)
    ensures
        r@ == byte_preview(body@, max as nat),
        encode_utf8(r@).len() <= max || r@ == body@,
{
    let bytes = body.as_bytes();
    if bytes.len() <= max {
        return String::from_str(body);
    }
    proof {
        encode_utf8_valid_utf8(body@);
    }
    let mut b = max;
    while b > 0 && !body.is_char_boundary(b)
        invariant
            b <= max < encode_utf8(body@).len(),
            bytes@ == encode_utf8(body@),
            valid_utf8(encode_utf8(body@)),
            last_boundary(encode_utf8(body@), max as nat) == last_boundary(encode_utf8(body@), b as nat),
        decreases b,
    {
        b -= 1;
    }
    proof {
        assert(last_boundary(encode_utf8(body@), b as nat) == b);
        assert(is_char_boundary(encode_utf8(body@), b as int)) by {
            if b == 0 {
                is_char_boundary_start_end_of_seq(encode_utf8(body@));
            }
        }
    }
    let (head, _) = body.split_at(b);
    proof {
        encode_utf8_decode_utf8(head@);
        assert(encode_utf8(head@) == encode_utf8(body@).subrange(0, b as int));
        assert(head@ == decode_utf8(encode_utf8(body@).subrange(0, b as int)));
    }
    String::from_str(head)
}

/// What listing the remote attachments gives: the parsed entries, or, when
/// there are none, an error that shows the listed address and the start of
/// the reply.
pub open spec fn listing_report(target: Seq<char>, body: Seq<char>, parsed: Seq<RemoteAttachment>) -> Result<
    Seq<RemoteAttachment>,
    Seq<char>,
> {
    if parsed.len() == 0 {
        Err("解析到 0 个云端附件。target="@ + target + " | 原始响应(前800字): "@ + preview_text(body, 800))
    } else {
        Ok(parsed)
    }
}

/// The outcome of listing the remote attachments; see `listing_report`.
pub fn listing_result(target: &str, body: &str, parsed: Vec<RemoteAttachment>) -> (r: Result<
    Vec<RemoteAttachment>,
    String,
>)
    ensures
        match listing_report(target@, body@, parsed@) {
            Ok(p) => r matches Ok(v) && v@ == p,
            Err(e) => r matches Err(m) && m@ == e,
        },
{
    if parsed.len() == 0 {
        let mut msg = String::from_str("解析到 0 个云端附件。target=");
        msg.append(target);
        msg.append(" | 原始响应(前800字): ");
        let p = text_preview(body, 800);
        msg.append(p.as_str());
        Err(msg)
    } else {
        Ok(parsed)
    }
}

/// Whether a single attachment file can be fetched: it is named, and a
/// server is configured.
pub open spec fn download_check_result(cfg: WebdavConfig, filename: Seq<char>) -> Result<(), Seq<char>> {
    if filename.len() == 0 {
        Err("文件名不能为空"@)
    } else if !webdav_ready(cfg) {
        Err("未配置 WebDAV，无法下载"@)
    } else {
        Ok(())
    }
}

/// Whether a single attachment file can be fetched; see `download_check_result`.
pub fn download_request_check(cfg: &WebdavConfig, filename: &str) -> (r: Result<(), String>)
    ensures
        match download_check_result(*cfg, filename@) {
            Ok(()) => r is Ok,
            Err(e) => r matches Err(m) && m@ == e,
        },
{
    if filename.is_empty() {
        return Err(String::from_str("文件名不能为空"));
    }
    if !webdav_configured(cfg) {
        return Err(String::from_str("未配置 WebDAV，无法下载"));
    }
    Ok(())
}


// ---------------------------------------------------------------------------
// Merging sync
// ---------------------------------------------------------------------------

/// What a merging sync makes of the backup it downloaded.
pub enum MergeInput {
    /// The backup cannot be opened (it does not decrypt); the sync uploads
    /// the local data instead.
    Unreadable,
    /// The backup opened; its data JSON, or the error of unpacking it.
    Decoded(Result<String, String>),
}

/// What a merging sync makes of the downloaded backup `raw`: unreadable when
/// it does not open (see `download_result`), else the gunzipped JSON text or
/// the error of gunzipping it.
pub fn merge_input(cfg: &WebdavConfig, raw: Vec<u8>) -> (r: MergeInput)
    requires
        encrypts(*cfg) ==> download_key_fits(*cfg, cfg.enc_pass@, raw@),
    ensures
        match download_result(*cfg, raw@) {
            Err(_) => r is Unreadable,
            Ok(d) => r matches MergeInput::Decoded(t) && text_result(t) == gunzip_text(d),
        },
{
    match sync_download_payload(cfg, raw) {
        Err(_) => MergeInput::Unreadable,
        Ok(d) => MergeInput::Decoded(gunzip_to_string(d.as_slice())),
    }
}

} // verus!

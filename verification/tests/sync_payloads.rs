use aes_gcm::aead::{Aead, KeyInit};
use base64::Engine;
use sha2::Digest;
use std::io::{Read, Write};
use daytoday::crypto::{
    decrypt, decrypt_key_derivable, default_algorithm, encrypt, encrypt_key_derivable, is_valid_algorithm,
};
use daytoday::models::{AiConfig, AppData, Attachment, Note, RemoteAttachment, SettingsData, ShortcutConfig, WebdavConfig};
use daytoday::sync::{
    apply_pull, apply_settings, attachment_check_ready, attachment_encryption_verdict,
    body_preview, text_preview, dedup_attachments, download_request_check, encryption_verdict, listing_result,
    merge_input, merge_into_local, pull_summary, reconcile_attachments, sync_report, upload_confirmation,
    upload_summary, webdav_configured, AttachmentUpload, MergeInput, SettingsUpload,
};
use daytoday::webdav::{
    attachment_download_allowed, attachment_plaintext, attachment_upload_payload,
    attachment_uploaded_message, backup_payload, decode_href, dir_ready,
    mkcol_failure, mkcol_probe, pulled_backup_json, remote_url, root_failure, root_probe,
    settings_download_json, settings_pass, settings_upload_payload, status_is_success,
    sync_download_payload, sync_upload_payload, upload_done_message, Probe,
};

fn cfg_with(pass: &str) -> WebdavConfig {
    let mut c = WebdavConfig::default();
    c.url = "https://dav.example.com/dav/".into();
    c.user = "me".into();
    c.pass = "secret".into();
    c.enc_pass = pass.into();
    c
}

fn att(id: u64, name: &str) -> Attachment {
    Attachment {
        id,
        filename: name.into(),
        size: 1,
        note_ids: vec![],
        folder: String::new(),
        created: String::new(),
        date: String::new(),
    }
}

fn note(id: u64, text: &str) -> Note {
    Note { id, text: text.to_string(), tags: vec![], time: String::new(), date: String::new() }
}

#[test]
fn algorithms() {
    assert_eq!(default_algorithm(), "aes256-gcm");
    assert!(is_valid_algorithm("aes256-gcm"));
    assert!(is_valid_algorithm("chacha20-poly1305"));
    assert!(is_valid_algorithm("aes256-gcm-pbkdf2"));
    assert!(!is_valid_algorithm("rot13"));
}

#[test]
fn encrypt_then_decrypt_each_algorithm() {
    for alg in ["aes256-gcm", "chacha20-poly1305", "aes256-gcm-pbkdf2"] {
        let sealed = encrypt(b"hello", "pw", alg).unwrap();
        assert!(sealed.starts_with(&format!("DT1:{}:", alg)));
        assert_eq!(decrypt(&sealed, "pw", "ignored").unwrap(), b"hello".to_vec());
        assert_eq!(decrypt(&sealed, "other", alg).unwrap_err(), "解密失败（密码错误或数据损坏）");
    }
}

#[test]
fn unknown_algorithm_falls_back_to_aes() {
    let sealed = encrypt(b"x", "pw", "rot13").unwrap();
    assert!(sealed.starts_with("DT1:aes256-gcm:"));
}

#[test]
fn malformed_header_is_refused() {
    assert_eq!(decrypt("DT1:nocolon", "pw", "aes256-gcm").unwrap_err(), "加密数据头部格式错误");
}

#[test]
fn short_legacy_payload_is_refused() {
    // base64 of four bytes: too short for a nonce
    assert_eq!(decrypt("AAAAAA==", "pw", "aes256-gcm").unwrap_err(), "数据太短");
}

fn gzip(data: &[u8]) -> Vec<u8> {
    let mut e = flate2::write::GzEncoder::new(Vec::new(), flate2::Compression::best());
    e.write_all(data).unwrap();
    e.finish().unwrap()
}

#[test]
fn backup_round_trips_encrypted_and_plain() {
    let json = b"{\"notes\":[]}";
    let enc = cfg_with("pw");
    let p = backup_payload(&enc, json).unwrap();
    assert!(p.starts_with(b"DT1:aes256-gcm:"));
    assert_eq!(pulled_backup_json(&enc, p.clone()).unwrap(), "{\"notes\":[]}");
    match merge_input(&enc, p) {
        MergeInput::Decoded(t) => assert_eq!(t.unwrap(), "{\"notes\":[]}"),
        MergeInput::Unreadable => panic!("the backup should open"),
    }
    assert!(matches!(merge_input(&enc, b"not sealed".to_vec()), MergeInput::Unreadable));
    match merge_input(&cfg_with(""), b"not gzip".to_vec()) {
        MergeInput::Decoded(t) => assert!(t.is_err()),
        MergeInput::Unreadable => panic!("plain backups always open"),
    }
    let plain = cfg_with("");
    let q = backup_payload(&plain, json).unwrap();
    assert_eq!(pulled_backup_json(&plain, q).unwrap(), "{\"notes\":[]}");
}

#[test]
fn sync_payload_round_trip() {
    let enc = cfg_with("pw");
    let p = sync_upload_payload(&enc, b"data").unwrap();
    assert_ne!(p, b"data".to_vec());
    assert_eq!(sync_download_payload(&enc, p).unwrap(), b"data".to_vec());
    let plain = cfg_with("");
    assert_eq!(sync_upload_payload(&plain, b"data").unwrap(), b"data".to_vec());
}

#[test]
fn settings_use_their_own_password() {
    let mut c = cfg_with("data-pw");
    assert_eq!(settings_pass(&c).unwrap(), "data-pw");
    c.settings_pass = "set-pw".into();
    assert_eq!(settings_pass(&c).unwrap(), "set-pw");
    let p = settings_upload_payload(&c, b"{\"k\":2}").unwrap();
    assert_eq!(settings_download_json(&c, p).unwrap(), "{\"k\":2}");
    let none = cfg_with("");
    assert!(settings_pass(&none).is_none());
}

#[test]
fn attachments_need_encryption_or_permission() {
    let plain = cfg_with("");
    assert_eq!(
        attachment_upload_payload(&plain, b"f").unwrap_err(),
        "附件上传需要启用加密并设置加密密码（或在设置中开启「允许明文上传附件」）"
    );
    assert!(attachment_download_allowed(&plain).is_err());
    let mut allowed = cfg_with("");
    allowed.allow_unencrypted_attachment = true;
    assert_eq!(attachment_upload_payload(&allowed, b"f").unwrap(), b"f".to_vec());
    let enc = cfg_with("pw");
    let p = attachment_upload_payload(&enc, b"file").unwrap();
    assert_eq!(attachment_plaintext(&enc, p).unwrap(), b"file".to_vec());
    assert_eq!(attachment_uploaded_message(&enc, "a.txt"), "附件 a.txt 已上传");
    assert_eq!(attachment_uploaded_message(&allowed, "a.txt"), "附件 a.txt 已上传（明文）");
}

#[test]
fn remote_locations() {
    let mut c = cfg_with("");
    c.path = "//backup/".into();
    assert_eq!(remote_url(&c, "daytoday-backup.json"), "https://dav.example.com/dav/backup/daytoday-backup.json");
    assert_eq!(upload_done_message(&c), "同步完成 · 未加密上传至 /backup");
}

#[test]
fn decode_href_handles_escapes() {
    assert_eq!(decode_href("a%20b%E4%B8%AD"), "a b中");
    assert_eq!(decode_href("plain.txt"), "plain.txt");
    assert_eq!(decode_href("bad%ZZ"), "bad%ZZ");
}

#[test]
fn server_statuses() {
    assert!(status_is_success(207));
    assert!(!status_is_success(404));
    assert!(dir_ready(405) && dir_ready(201) && !dir_ready(409));
    assert!(matches!(root_probe(200), Probe::Reachable));
    assert!(matches!(root_probe(500), Probe::Failed));
    match root_probe(401) {
        Probe::Refused(m) => assert!(m.starts_with("401 未授权")),
        _ => panic!("401 must be refused"),
    }
    assert!(matches!(mkcol_probe(405), Probe::Reachable));
    assert!(matches!(mkcol_probe(401), Probe::Refused(_)));
    assert!(matches!(mkcol_probe(409), Probe::Failed));
    assert_eq!(root_failure("404 Not Found", "x"), "服务器返回 404 Not Found: x");
    assert_eq!(mkcol_failure(409, "conflict"), "连接成功，但无法创建同步目录 (HTTP 409)：conflict");
}

#[test]
fn merge_into_local_merges_every_collection() {
    let mut local = AppData::default();
    let mut remote = AppData::default();
    remote.notes = vec![note(1, "remote sample"), note(2, "new")];
    remote.attachments = vec![att(5, "f")];
    remote.next_task_id = 99;
    merge_into_local(&mut local, remote);
    assert_eq!(local.notes.len(), 2);
    assert_eq!(local.notes[0].text, "remote sample");
    assert_eq!(local.notes[1].text, "new");
    assert_eq!(local.summaries.len(), 1);
    assert_eq!(local.attachments.len(), 1);
    assert_eq!(local.next_task_id, 1);
}

#[test]
fn pull_adds_or_overwrites() {
    let mut remote = AppData::default();
    remote.notes = vec![note(1, "remote"), note(3, "three")];
    remote.data_dir = "remote-dir".into();
    let mut cfg = cfg_with("");
    let mut local = AppData::default();
    local.data_dir = "local-dir".into();
    apply_pull(&mut local, remote.clone(), &cfg);
    assert_eq!(local.notes.len(), 2);
    assert_ne!(local.notes[0].text, "remote");
    assert_eq!(local.notes[1].text, "three");

    cfg.pull_mode = "overwrite".into();
    cfg.sync_summaries = false;
    let mut local2 = AppData::default();
    local2.data_dir = "local-dir".into();
    apply_pull(&mut local2, remote, &cfg);
    assert_eq!(local2.notes.len(), 2);
    assert_eq!(local2.notes[0].text, "remote");
    assert!(local2.summaries.is_empty());
    assert_eq!(local2.data_dir, "local-dir");
}

#[test]
fn settings_restore() {
    let mut d = AppData::default();
    let s = SettingsData {
        ai_config: AiConfig { url: "u".into(), model: "m".into(), key: "k".into() },
        shortcuts: ShortcutConfig { send_note: "a".into(), quick_note: "b".into() },
    };
    apply_settings(&mut d, s);
    assert_eq!(d.ai_config.model, "m");
    assert_eq!(d.shortcuts.quick_note, "b");
}

#[test]
fn reconcile_adds_unrecorded_remote_files() {
    let local = vec![att(1, "a b.txt"), att(2, "c.txt")];
    let remote = vec![
        RemoteAttachment { filename: "a%20b.txt".into(), size: 9, exists_local: false },
        RemoteAttachment { filename: "d.txt".into(), size: 4, exists_local: false },
        RemoteAttachment { filename: "c.txt".into(), size: 1, exists_local: true },
    ];
    let out = reconcile_attachments(local, &remote, &vec![10, 11, 12]);
    assert_eq!(out.len(), 3);
    assert_eq!(out[2].filename, "d.txt");
    assert_eq!(out[2].id, 11);
    assert_eq!(out[2].size, 4);
    assert!(out[2].folder.is_empty() && out[2].created.is_empty());
}

#[test]
fn dedup_drops_repeats_by_name_or_decoded_name() {
    let atts = vec![att(1, "a b.txt"), att(2, "a%20b.txt"), att(3, "c"), att(4, "c")];
    let out = dedup_attachments(atts);
    let ids: Vec<u64> = out.iter().map(|a| a.id).collect();
    assert_eq!(ids, vec![1, 3]);
}

#[test]
fn pull_reports() {
    assert_eq!(pull_summary(true, 0, 5), "拉取完成：云端数据已合并到本地");
    assert_eq!(pull_summary(true, 2, 5), "拉取完成：云端数据已合并到本地；2 个附件文件未下载（详见进度提示）");
    assert_eq!(
        pull_summary(false, 0, 5),
        "拉取完成：云端数据已合并到本地；附件记录已同步，文件未下载（可在设置开启「资料文件」同步）"
    );
    assert_eq!(pull_summary(false, 0, 0), "拉取完成：云端数据已合并到本地");
}

#[test]
fn upload_reports() {
    assert_eq!(upload_summary(SettingsUpload::Disabled, false, &vec![], &vec![]), "设置同步已关闭，跳过");
    assert_eq!(
        upload_summary(SettingsUpload::Sent("ok".into()), true, &vec![], &vec![]),
        "ok；无附件需要上传"
    );
    let names = vec!["a".to_string(), "b".to_string()];
    let outs = vec![AttachmentUpload::Missing, AttachmentUpload::Failed("x".into())];
    assert_eq!(
        upload_summary(SettingsUpload::Failed("e".into()), true, &names, &outs),
        "设置上传跳过（e）；附件 a 本地文件缺失，跳过；附件 b 上传跳过（x）；⚠ 所有附件均未能上传，请检查 WebDAV 账号密码（需使用服务商提供的专用应用密码，而非登录密码）"
    );
    let outs2 = vec![
        AttachmentUpload::Sent { message: "附件 a 已上传".into(), confirmed: true },
        AttachmentUpload::Sent { message: "m".into(), confirmed: false },
    ];
    assert_eq!(
        upload_summary(SettingsUpload::Disabled, true, &names, &outs2),
        "设置同步已关闭，跳过；附件 a 已上传（已确认云端存在）；附件 b 上传返回成功，但服务端校验未找到该文件（云盘可能不显示 WebDAV 上传的文件，请用 WebDAV 客户端如 RaiDrive 查看）"
    );
    assert_eq!(upload_confirmation("m", true), "m（已确认云端存在）");
    assert_eq!(sync_report("a", "b"), "a；b");
}

#[test]
fn encryption_check_of_the_backup() {
    let plain = gzip(b"{}");
    assert_eq!(encryption_verdict(plain.clone(), "", "").unwrap(), "ℹ 远程文件是 JSON 格式（未加密）");
    assert_eq!(
        encryption_verdict(plain, "pw", "").unwrap_err(),
        "⚠ 远程文件是未加密的 JSON 格式，加密密码未生效"
    );
    let not_json = gzip(b"nope");
    assert_eq!(encryption_verdict(not_json, "", "").unwrap_err(), "远程文件是 gzip 格式但内容不是有效 JSON");
    let sealed = backup_payload(&cfg_with("pw"), b"{\"x\":1}").unwrap();
    assert_eq!(
        encryption_verdict(sealed.clone(), "pw", "").unwrap(),
        "✅ 加密验证通过：远程文件已使用 AES-256-GCM 加密，密码正确"
    );
    assert_eq!(encryption_verdict(sealed, "", "").unwrap_err(), "远程文件是加密格式，但未提供密码验证");
    assert_eq!(
        encryption_verdict(vec![0xff, 0xfe], "pw", "").unwrap_err(),
        "远程文件既不是 gzip 也不是有效的文本格式"
    );
}

#[test]
fn encryption_check_of_an_attachment() {
    let mut off = cfg_with("");
    assert_eq!(attachment_check_ready(&off).unwrap_err(), "未启用加密或未设置加密密码，附件将明文上传，无法校验加密");
    off.url = String::new();
    assert_eq!(attachment_check_ready(&off).unwrap_err(), "未配置 WebDAV，无法校验");
    assert!(!webdav_configured(&off));
    let enc = cfg_with("pw");
    assert!(attachment_check_ready(&enc).is_ok());
    let p = attachment_upload_payload(&enc, b"file").unwrap();
    assert_eq!(
        attachment_encryption_verdict(&enc, "f.bin", p).unwrap(),
        "✅ 校验通过：云端附件「f.bin」已使用 aes256-gcm 加密上传，密码正确"
    );
    assert_eq!(
        attachment_encryption_verdict(&enc, "f.bin", b"plain".to_vec()).unwrap_err(),
        "⚠ 云端附件「f.bin」解密失败，可能未加密或密码不匹配"
    );
    assert_eq!(
        attachment_encryption_verdict(&enc, "f.bin", vec![0xff]).unwrap_err(),
        "云端附件不是有效的文本（疑似非加密二进制）"
    );
}

#[test]
fn listing_and_download_checks() {
    let r = listing_result("t/", "<x/>", vec![]);
    assert_eq!(r.unwrap_err(), "解析到 0 个云端附件。target=t/ | 原始响应(前800字): <x/>");
    let long = "a".repeat(900);
    assert_eq!(body_preview(&long, 800).len(), 800);
    let wide = "é".repeat(500);
    let msg = listing_result("t/", &wide, vec![]).unwrap_err();
    assert!(msg.ends_with(&wide));
    let wider = "é".repeat(900);
    let msg2 = listing_result("t/", &wider, vec![]).unwrap_err();
    assert!(msg2.ends_with(&"é".repeat(800)));
    assert!(!msg2.ends_with(&"é".repeat(801)));
    assert_eq!(text_preview(&wider, 800).chars().count(), 800);
    let cut = body_preview(&"é".repeat(1000), 1501);
    assert_eq!(cut, "é".repeat(750));
    assert_eq!(body_preview("abc", 1500), "abc");
    let one = vec![RemoteAttachment { filename: "f".into(), size: 1, exists_local: false }];
    assert_eq!(listing_result("t/", "", one).unwrap().len(), 1);
    let cfg = cfg_with("");
    assert_eq!(download_request_check(&cfg, "").unwrap_err(), "文件名不能为空");
    assert!(download_request_check(&cfg, "f").is_ok());
    let mut none = cfg_with("");
    none.pass = String::new();
    assert_eq!(download_request_check(&none, "f").unwrap_err(), "未配置 WebDAV，无法下载");
}

fn open_with_crates(sealed: &str, pw: &str) -> Vec<u8> {
    let rest = sealed.strip_prefix("DT1:").unwrap();
    let (alg, body) = rest.split_once(':').unwrap();
    let combined = base64::engine::general_purpose::STANDARD.decode(body).unwrap();
    let (nonce, rest) = combined.split_at(12);
    let (salt, ct) = rest.split_at(16);
    let mut key = [0u8; 32];
    if alg == "aes256-gcm-pbkdf2" {
        pbkdf2::pbkdf2::<hmac::Hmac<sha2::Sha256>>(pw.as_bytes(), salt, 100_000, &mut key).unwrap();
    } else {
        argon2::Argon2::default().hash_password_into(pw.as_bytes(), salt, &mut key).unwrap();
    }
    if alg == "chacha20-poly1305" {
        let c = chacha20poly1305::ChaCha20Poly1305::new_from_slice(&key).unwrap();
        c.decrypt(chacha20poly1305::Nonce::from_slice(nonce), ct).unwrap()
    } else {
        let c = aes_gcm::Aes256Gcm::new_from_slice(&key).unwrap();
        c.decrypt(aes_gcm::Nonce::from_slice(nonce), ct).unwrap()
    }
}

#[test]
fn sealed_payloads_open_with_the_crates_themselves() {
    for alg in ["aes256-gcm", "chacha20-poly1305", "aes256-gcm-pbkdf2"] {
        let sealed = encrypt(b"payload", "pw", alg).unwrap();
        assert_eq!(open_with_crates(&sealed, "pw"), b"payload".to_vec());
    }
}

#[test]
fn payloads_made_by_the_crates_decrypt() {
    let salt = [7u8; 16];
    let nonce = [9u8; 12];
    let mut key = [0u8; 32];
    argon2::Argon2::default().hash_password_into(b"pw", &salt, &mut key).unwrap();
    let ct = aes_gcm::Aes256Gcm::new_from_slice(&key)
        .unwrap()
        .encrypt(aes_gcm::Nonce::from_slice(&nonce), b"abc".as_ref())
        .unwrap();
    let mut combined = nonce.to_vec();
    combined.extend_from_slice(&salt);
    combined.extend_from_slice(&ct);
    let body = base64::engine::general_purpose::STANDARD.encode(&combined);
    // without the header: the algorithm argument decides
    assert_eq!(decrypt(&body, "pw", "aes256-gcm").unwrap(), b"abc".to_vec());
    let framed = format!("DT1:aes256-gcm:{}", body);
    assert_eq!(decrypt(&framed, "pw", "chacha20-poly1305").unwrap(), b"abc".to_vec());
}

#[test]
fn legacy_sha256_payloads() {
    let key = sha2::Sha256::digest(b"pw");
    // a legacy payload shorter than nonce, salt and tag together: the tag cannot check
    let nonce = [1u8; 12];
    let mut combined = nonce.to_vec();
    combined.extend_from_slice(&[0u8; 10]);
    let body = base64::engine::general_purpose::STANDARD.encode(&combined);
    assert_eq!(decrypt(&body, "pw", "aes256-gcm").unwrap_err(), "解密失败（密码错误或数据损坏）");
    let ok = aes_gcm::Aes256Gcm::new_from_slice(&key).unwrap().encrypt(aes_gcm::Nonce::from_slice(&nonce), b"".as_ref());
    assert!(ok.is_ok());
}

#[test]
fn plain_backups_are_real_gzip() {

    let q = backup_payload(&cfg_with(""), b"{\"k\":1}").unwrap();
    let mut d = flate2::read::GzDecoder::new(&q[..]);
    let mut s = String::new();
    d.read_to_string(&mut s).unwrap();
    assert_eq!(s, "{\"k\":1}");
}

#[test]
fn every_remote_file_is_recorded_after_a_pull() {
    let local = vec![att(1, "x y.txt"), att(2, "x%20y.txt")];
    let remote = vec![
        RemoteAttachment { filename: "x%20y.txt".into(), size: 1, exists_local: false },
        RemoteAttachment { filename: "z.txt".into(), size: 2, exists_local: false },
        RemoteAttachment { filename: "z.txt".into(), size: 2, exists_local: false },
    ];
    let out = reconcile_attachments(local, &remote, &vec![7, 8, 9]);
    assert_eq!(out.len(), 4);
    let kept = dedup_attachments(out);
    let names: Vec<String> = kept.iter().map(|a| a.filename.clone()).collect();
    assert_eq!(names, vec!["x y.txt".to_string(), "z.txt".to_string()]);
    for r in &remote {
        let dec = decode_href(&r.filename);
        assert!(kept.iter().any(|a| a.filename == r.filename
            || a.filename == dec
            || decode_href(&a.filename) == r.filename
            || decode_href(&a.filename) == dec));
    }
}

#[test]
fn escaped_hrefs_decode_to_their_text() {
    let text = "资料 a.txt";
    let enc: String = text.bytes().map(|b| format!("%{:02x}", b)).collect();
    assert_eq!(decode_href(&enc), text);
    let upper: String = text.bytes().map(|b| format!("%{:02X}", b)).collect();
    assert_eq!(decode_href(&upper), text);
    assert_eq!(decode_href("a b.txt"), "a b.txt");
}

#[test]
fn ciphertext_is_data_plus_tag() {
    for alg in ["aes256-gcm", "chacha20-poly1305"] {
        let sealed = encrypt(&[5u8; 37], "pw", alg).unwrap();
        let body = sealed.rsplit(':').next().unwrap();
        let combined = base64::engine::general_purpose::STANDARD.decode(body).unwrap();
        assert_eq!(combined.len(), 12 + 16 + 37 + 16);
    }
}

#[test]
fn merged_ids_stay_distinct() {
    let mut local = vec![note(1, "a"), note(2, "b")];
    merge_into_ids(&mut local);
    let mut ids: Vec<u64> = local.iter().map(|n| n.id).collect();
    ids.sort();
    assert_eq!(ids, vec![1, 2, 3]);
}

fn merge_into_ids(local: &mut Vec<Note>) {
    daytoday::models::merge_by_id(local, vec![note(2, "B"), note(3, "c")]);
}

#[test]
fn ordinary_passwords_fit_every_key_derivation() {
    for alg in ["aes256-gcm", "chacha20-poly1305", "aes256-gcm-pbkdf2", "other"] {
        assert!(encrypt_key_derivable("pw", alg));
        let sealed = encrypt(b"hello", "pw", alg).unwrap();
        assert!(decrypt_key_derivable(sealed.as_bytes(), "pw", "aes256-gcm"));
        assert_eq!(decrypt(&sealed, "pw", "chacha20-poly1305").unwrap(), b"hello".to_vec());
    }
    assert!(decrypt_key_derivable(b"not base64!", "pw", ""));
    assert!(decrypt_key_derivable(b"DT1:no-colon-after", "pw", ""));
}

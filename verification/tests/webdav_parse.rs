use daytoday::webdav::{
    extract_content_length, find_response_start, find_tag_start, parse_propfind, split_responses,
};

const SAMPLE: &str = r#"<?xml version="1.0" encoding="UTF-8"?><D:multistatus xmlns:D="DAV:"><D:response><D:href>/webdav/backup/attachments/</D:href><D:propstat><D:prop><D:href></D:href><D:getcontentlength></D:getcontentlength><D:getcontenttype></D:getcontenttype></D:prop><D:status>HTTP/1.1 404 Not Found</D:status></D:propstat></D:response><D:response><D:href>/webdav/backup/attachments/touch%E7%AD%BE%E5%AD%97%E7%AC%94%E6%98%A0%E5%B0%84%E9%97%AE%E9%A2%98%E8%A7%A3%E5%86%B3%281%29.zip</D:href><D:propstat><D:prop><D:getcontentlength>86384</D:getcontentlength><D:getcontenttype></D:getcontenttype></D:prop><D:status>HTTP/1.1 200 OK</D:status></D:propstat><D:propstat><D:prop><D:href></D:href></D:prop><D:status>HTTP/1.1 404 Not Found</D:status></D:propstat></D:response></D:multistatus>"#;

#[test]
fn parses_123pan_attachments() {
    let bytes = SAMPLE.as_bytes();
    let blocks = split_responses(bytes);
    for (lo, hi) in &blocks {
        println!("CLEN for block: {:?}", extract_content_length(&bytes[*lo..*hi]));
    }
    let res = parse_propfind(SAMPLE, &[]);
    assert_eq!(res.len(), 1, "should find exactly 1 file (dir self skipped)");
    assert!(res[0].filename.starts_with("touch"), "filename={}", res[0].filename);
    assert!(res[0].filename.ends_with(".zip"), "filename={}", res[0].filename);
    assert_eq!(res[0].size, 86384);
}

#[test]
fn response_start_is_tag_start_of_response() {
    let bodies: [&[u8]; 4] = [b"<x/><D:response>", b"<response><d:response>", b"<D:responses/>", b""];
    for body in bodies {
        for from in 0..body.len() + 1 {
            assert_eq!(find_response_start(body, from), find_tag_start(body, from, b"response"));
        }
    }
    assert_eq!(find_response_start(b"<x/><D:response>", 0), Some(4));
    assert_eq!(find_response_start(b"<response><d:response>", 1), Some(10));
}

use solflow::sync::google;
use solflow::sync::reply::{
    device_code_reply, disk_file_name, disk_href, disk_info_reply, drive_account, drive_list_page, first_file_id,
    list_page, poll_error_of, token_reply, TokenError,
};
use solflow::sync::yandex::{self, PollError};

#[test]
fn tokens_come_from_the_reply_with_defaults() {
    let t = token_reply(r#"{"access_token":"A","refresh_token":"R","expires_in":3600}"#, Some("O"), yandex::TOKEN_LIFETIME_SECS, 1000)
        .unwrap();
    assert_eq!((t.access_token.as_str(), t.refresh_token.as_str(), t.expires_at), ("A", "R", 1000 + 3_600_000));
    let t = token_reply(r#"{"access_token":"A"}"#, Some("O"), yandex::TOKEN_LIFETIME_SECS, 0).unwrap();
    assert_eq!((t.refresh_token.as_str(), t.expires_at), ("O", 365 * 86_400 * 1000));
    let t = token_reply(r#"{"access_token":"A"}"#, None, google::TOKEN_LIFETIME_SECS, 5).unwrap();
    assert_eq!((t.refresh_token.as_str(), t.expires_at), ("", 5 + 3_600_000));
    assert!(matches!(token_reply(r#"{"refresh_token":"R"}"#, None, 60, 0), Err(TokenError::NoToken)));
    assert!(matches!(token_reply("not json", None, 60, 0), Err(TokenError::NoToken)));
    assert!(matches!(
        token_reply(r#"{"access_token":"A","expires_in":9223372036854775807}"#, None, 60, 0),
        Err(TokenError::Lifetime)
    ));
}

#[test]
fn device_codes_come_from_the_reply_with_defaults() {
    let c = device_code_reply(
        r#"{"device_code":"D","user_code":"U","verification_url":"https://x/y","interval":1,"expires_in":60}"#,
        yandex::CODE_LIFETIME_SECS,
        yandex::DEVICE_URL,
        1000,
    )
    .unwrap();
    assert_eq!((c.device_code.as_str(), c.user_code.as_str(), c.verification_url.as_str()), ("D", "U", "https://x/y"));
    assert_eq!((c.interval, c.expires_at), (2, 61_000));
    let c = device_code_reply(r#"{"device_code":"D","user_code":"U"}"#, yandex::CODE_LIFETIME_SECS, yandex::DEVICE_URL, 0)
        .unwrap();
    assert_eq!((c.verification_url.as_str(), c.interval, c.expires_at), ("https://oauth.yandex.ru/device", 5, 300_000));
    let g = device_code_reply(r#"{"device_code":"D","user_code":"U"}"#, google::CODE_LIFETIME_SECS, google::DEVICE_URL, 0)
        .unwrap();
    assert_eq!((g.verification_url.as_str(), g.expires_at), ("https://www.google.com/device", 1_800_000));
    assert!(matches!(device_code_reply(r#"{"user_code":"U"}"#, 300, "u", 0), Err(TokenError::NoDeviceCode)));
    assert!(matches!(device_code_reply(r#"{"device_code":"D"}"#, 300, "u", 0), Err(TokenError::NoUserCode)));
}

#[test]
fn a_failed_poll_says_why() {
    assert_eq!(poll_error_of(r#"{"error":"authorization_pending"}"#), PollError::Pending);
    assert_eq!(poll_error_of(r#"{"error":"access_denied"}"#), PollError::Denied);
    assert_eq!(poll_error_of("<html>"), PollError::Other);
}

#[test]
fn a_disk_listing_keeps_files_and_pages_on() {
    let page = r#"{"_embedded":{"total":5,"items":[
        {"name":"1.json","type":"file","md5":"m1","modified":"2024-05-01T00:00:00+00:00","size":10},
        {"name":"dir","type":"dir"},
        {"name":"2.json","type":"file"}]}}"#;
    let (files, next) = list_page(page, 0);
    assert_eq!(files.len(), 2);
    assert_eq!((files[0].name.as_str(), files[0].md5.as_str(), files[0].modified, files[0].size), ("1.json", "m1", 1714521600000, 10));
    assert_eq!((files[1].name.as_str(), files[1].md5.as_str(), files[1].modified, files[1].size), ("2.json", "", 0, 0));
    assert_eq!(next, Some(3));
    assert_eq!(list_page(page, 2).1, None);
    assert_eq!(list_page(r#"{"_embedded":{"total":5,"items":[]}}"#, 0).1, None);
    assert_eq!(list_page("{}", 0).0.len(), 0);
}

#[test]
fn a_drive_listing_reads_every_file() {
    let page = r#"{"nextPageToken":"P2","files":[
        {"id":"i1","name":"a","md5Checksum":"m","modifiedTime":"2024-05-01T00:00:00Z","size":"42"},
        {"id":"i2","name":"b","size":"x"}]}"#;
    let (files, next) = drive_list_page(page);
    assert_eq!(next.as_deref(), Some("P2"));
    assert_eq!(files.len(), 2);
    assert_eq!((files[0].0.as_str(), files[0].1.name.as_str(), files[0].1.size), ("i1", "a", 42));
    assert_eq!((files[1].0.as_str(), files[1].1.size, files[1].1.modified), ("i2", 0, 0));
    assert_eq!(drive_list_page(r#"{"files":[]}"#).1, None);
    assert_eq!(first_file_id(page).as_deref(), Some("i1"));
    assert_eq!(first_file_id(r#"{"files":[]}"#), None);
    assert_eq!(drive_account(r#"{"user":{"emailAddress":"me@x"}}"#), "me@x");
    assert_eq!(drive_account("{}"), "");
}

#[test]
fn disk_replies_give_names_links_and_room() {
    let info = disk_info_reply(r#"{"user":{"login":"l","display_name":"Имя"},"total_space":100,"used_space":7}"#);
    assert_eq!((info.login.as_str(), info.total, info.used), ("Имя", 100, 7));
    assert_eq!(disk_info_reply(r#"{"user":{"login":"l"}}"#).login, "l");
    assert_eq!(disk_info_reply(r#"{"user":{"login":"l","display_name":null}}"#).login, "");
    assert_eq!(disk_href(r#"{"href":"https://d/x"}"#).as_deref(), Some("https://d/x"));
    assert_eq!(disk_href("{}"), None);
    assert_eq!(disk_file_name(Some(r#"{"name":"Лекция.mp3"}"#)), "Лекция.mp3");
    assert_eq!(disk_file_name(Some("oops")), "Запись с Яндекс.Диска");
    assert_eq!(disk_file_name(None), "Запись с Яндекс.Диска");
}

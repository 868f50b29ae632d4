use yolite::cookies::{
    compact_cookie_header, cookie_name, cookie_pair, cookie_value, firefox_cookie_header,
    is_likely_youtube_cookie_name, is_music_auth_cookie_name, is_supported_cookie_domain,
    is_youtube_cookie_domain, join_cookie_pairs, netscape_cookie_file, normalize_cookies,
    normalize_webview_cookies, youtube_auth_header, WebviewCookie, MAX_COOKIE_HEADER_BYTES,
};

#[test]
fn test_netscape_cookie_export_keeps_google_and_youtube_domains() {
    let cookies = normalize_cookies(
        ".youtube.com\tTRUE\t/\tTRUE\t0\tSID\tyoutube-session\n\
         .google.com\tTRUE\t/\tTRUE\t0\tSID\tgoogle-session\n\
         music.youtube.com\tFALSE\t/\tTRUE\t0\tLOGIN_INFO\tlogin-info",
    );

    assert_eq!(cookies, "SID=google-session; LOGIN_INFO=login-info");
}

#[test]
fn test_oversized_cookie_header_keeps_likely_youtube_names() {
    let cookies = normalize_cookies(&format!(
        "unrelated={}; SID=session; __Secure-3PSID=secure-session",
        "x".repeat(MAX_COOKIE_HEADER_BYTES)
    ));

    assert_eq!(cookies, "SID=session; __Secure-3PSID=secure-session");
}

#[test]
fn cookie_domains() {
    assert!(is_youtube_cookie_domain(" .YouTube.com "));
    assert!(is_youtube_cookie_domain("music.youtube.com"));
    assert!(!is_youtube_cookie_domain("notyoutube.com"));
    assert!(is_supported_cookie_domain(".google.com"));
    assert!(is_supported_cookie_domain("accounts.google.com"));
    assert!(is_supported_cookie_domain(". youtube.com"));
    assert!(!is_supported_cookie_domain("example.com"));
}

#[test]
fn cookie_names() {
    assert!(is_likely_youtube_cookie_name("SID"));
    assert!(is_likely_youtube_cookie_name("ST-abc"));
    assert!(is_likely_youtube_cookie_name("__Secure-3PSID"));
    assert!(!is_likely_youtube_cookie_name("NID"));
    assert!(is_music_auth_cookie_name("NID"));
    assert!(!is_music_auth_cookie_name("ST-abc"));
    assert!(!is_music_auth_cookie_name("sid"));
}

#[test]
fn cookie_pairs_names_and_values() {
    assert_eq!(cookie_pair(" SID ", " v "), Some("SID=v".to_string()));
    assert_eq!(cookie_pair("SID", "  "), None);
    assert_eq!(cookie_pair("", "v"), None);
    assert_eq!(cookie_name("a=b=c"), "a");
    assert_eq!(cookie_name("abc"), "abc");
    assert_eq!(cookie_value("a=1; SAPISID = xyz ; b=2", "SAPISID"), Some("xyz"));
    assert_eq!(cookie_value("a=1; b=2", "SAPISID"), None);
    assert_eq!(cookie_value("a=1; a=2", "a"), Some("1"));
}

#[test]
fn join_keeps_the_last_value_of_each_name() {
    let joined = join_cookie_pairs(vec![
        "a=1".to_string(),
        "b=2".to_string(),
        "a=3".to_string(),
    ]);
    assert_eq!(joined, "b=2; a=3");
    assert_eq!(join_cookie_pairs(vec![]), "");
}

#[test]
fn compact_keeps_short_headers_whole() {
    let header = compact_cookie_header(vec!["unrelated=1".to_string(), "SID=s".to_string()]);
    assert_eq!(header, "unrelated=1; SID=s");
}

#[test]
fn normalize_reads_cookie_header_lines() {
    assert_eq!(
        normalize_cookies("Cookie: SID=1; HSID=2\ncookie: PREF=x"),
        "SID=1; HSID=2; PREF=x"
    );
    assert_eq!(normalize_cookies("   "), "");
    assert_eq!(normalize_cookies("SID=1;\r\nHSID=2; junk; a:b=c"), "SID=1; HSID=2");
}

#[test]
fn webview_cookies_keep_supported_domains() {
    let header = normalize_webview_cookies(vec![
        WebviewCookie {
            domain: Some(".youtube.com".to_string()),
            name: "SID".to_string(),
            value: "1".to_string(),
        },
        WebviewCookie {
            domain: Some("example.com".to_string()),
            name: "SID".to_string(),
            value: "2".to_string(),
        },
        WebviewCookie {
            domain: None,
            name: "HSID".to_string(),
            value: "3".to_string(),
        },
        WebviewCookie {
            domain: None,
            name: "other".to_string(),
            value: "4".to_string(),
        },
    ]);
    assert_eq!(header, "SID=1; HSID=3");
}

#[test]
fn firefox_output_keeps_music_auth_cookies() {
    let header = firefox_cookie_header(
        ".google.com|NID|n1\n.youtube.com|SID|s|x\r\nexample.com|SID|bad\n.youtube.com|other|o\n",
    );
    assert_eq!(header, "NID=n1; SID=s|x");
}

#[test]
fn netscape_file_lists_each_pair() {
    assert_eq!(netscape_cookie_file("  ", 0), None);
    let body = netscape_cookie_file("SID=1; =x; HSID = 2 ", 100).unwrap();
    assert_eq!(
        body,
        "# Netscape HTTP Cookie File\n.youtube.com\tTRUE\t/\tTRUE\t2592100\tSID\t1\n.youtube.com\tTRUE\t/\tTRUE\t2592100\tHSID\t2\n"
    );
}

#[test]
fn auth_header_hashes_sapisid() {
    assert_eq!(youtube_auth_header("a=1", 5), None);
    let header = youtube_auth_header("SAPISID=abc", 1700000000).unwrap();
    // SHA-1 of "1700000000 abc https://music.youtube.com"
    let expected = {
        let digest = ring::digest::digest(
            &ring::digest::SHA1_FOR_LEGACY_USE_ONLY,
            b"1700000000 abc https://music.youtube.com",
        );
        digest.as_ref().iter().map(|b| format!("{b:02x}")).collect::<String>()
    };
    assert_eq!(header, format!("SAPISIDHASH 1700000000_{expected}"));
    assert!(youtube_auth_header("__Secure-1PAPISID=q", 0).unwrap().starts_with("SAPISIDHASH 0_"));
}

#[test]
fn normalized_header_normalizes_to_itself() {
    for pasted in [
        "Cookie: SID=1; HSID=2\ncookie: PREF=x; SID=3",
        ".youtube.com\tTRUE\t/\tTRUE\t0\tSID\ts\n.google.com\tTRUE\t/\tTRUE\t0\tHSID\th",
        "SID=1;\r\nHSID=2; junk",
    ] {
        let once = normalize_cookies(pasted);
        assert!(!once.is_empty());
        assert_eq!(normalize_cookies(&once), once);
    }
}

#[test]
fn normalized_pair_holding_a_separator_is_read_apart() {
    let once = normalize_cookies(
        ".youtube.com\tTRUE\t/\tTRUE\t0\tc\tx\n.youtube.com\tTRUE\t/\tTRUE\t0\ta\tb; c=d",
    );
    assert_eq!(once, "c=x; a=b; c=d");
    assert_eq!(normalize_cookies(&once), "a=b; c=d");
}

#[test]
fn normalized_pair_with_clean_pieces_normalizes_to_itself() {
    let once = normalize_cookies(".youtube.com\tTRUE\t/\tTRUE\t0\ta\tv; w=1");
    assert_eq!(once, "a=v; w=1");
    assert_eq!(normalize_cookies(&once), once);
    let spaced = normalize_cookies(".youtube.com\tTRUE\t/\tTRUE\t0\ta\tv;  w=1");
    assert_eq!(spaced, "a=v;  w=1");
    assert_eq!(normalize_cookies(&spaced), "a=v; w=1");
}

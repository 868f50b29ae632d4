use yolite::account::{
    app_login_channel_id, auth_user_score, best_auth_user, browser_import_result,
    cookie_import_args, import_source_error, import_sources, import_step, ImportOutcome, ImportProgress, ImportStep, longer_cookies, playlist_hint_score, requested_user_id,
    session_auth_user, session_cookies, unaccepted_import, IMPORTED_USER_ID_REJECTED,
    USER_ID_NOT_ACCEPTED,
};
use yolite::models::PlaylistPayload;

fn playlist(id: &str, title: &str) -> PlaylistPayload {
    PlaylistPayload {
        id: id.to_string(),
        title: title.to_string(),
        thumbnail: String::new(),
        url: String::new(),
    }
}

#[test]
fn test_playlist_hint_score_matches_expected_titles() {
    let playlists = vec![
        playlist("PL1", "SPACE KEES"),
        playlist("PL2", "Other"),
        playlist("PL3", "jordy playlist"),
    ];

    assert_eq!(playlist_hint_score(&playlists), 2);
}

#[test]
fn the_best_scoring_account_wins() {
    let playlists = vec![playlist("PL1", "Liked Music"), playlist("PL2", "x")];
    assert_eq!(auth_user_score(&playlists), 103);
    assert_eq!(auth_user_score(&[]), 1);
    assert_eq!(best_auth_user(&vec![]), None);
    assert_eq!(best_auth_user(&vec![(0, 5), (3, 9), (4, 9), (5, 2)]), Some(3));
}

#[test]
fn sessions_choose_cookies_and_accounts() {
    assert_eq!(requested_user_id("  ", "/115266920129326433551/"), Ok("115266920129326433551".to_string()));
    assert!(requested_user_id("abc", "").is_err());
    assert_eq!(session_cookies(String::new(), "A=1".to_string()), Ok("A=1".to_string()));
    assert_eq!(session_cookies("B=2".to_string(), "A=1".to_string()), Ok("B=2".to_string()));
    assert_eq!(
        session_cookies(String::new(), String::new()),
        Err("Paste a Cookie header or cookies.txt export".to_string())
    );
    assert_eq!(session_auth_user("", None), Ok((0, false)));
    assert_eq!(session_auth_user("1", Some(3)), Ok((3, true)));
    assert_eq!(session_auth_user("1", None), Err(USER_ID_NOT_ACCEPTED.to_string()));
}

#[test]
fn browser_imports() {
    let args = cookie_import_args("chrome", "/tmp/c.txt");
    assert_eq!(args[0], "--cookies-from-browser");
    assert_eq!(args[1], "chrome");
    assert_eq!(args[3], "/tmp/c.txt");
    assert_eq!(args[9], "https://music.youtube.com/watch?v=jNQXAC9IVRw");
    assert_eq!(browser_import_result("edge", "A=1".to_string(), false, "x"), Ok("A=1".to_string()));
    assert_eq!(
        browser_import_result("edge", String::new(), true, "x"),
        Err("No YouTube cookies found in edge".to_string())
    );
    assert_eq!(browser_import_result("edge", String::new(), false, " bad \n"), Err("bad".to_string()));
    assert_eq!(
        browser_import_result("edge", String::new(), false, ""),
        Err("Could not import cookies from edge".to_string())
    );
    assert_eq!(import_sources(" AUTO ").len(), 7);
    assert_eq!(import_sources("").len(), 7);
    assert_eq!(import_sources(" brave "), vec!["brave".to_string()]);
    assert_eq!(
        unaccepted_import(None, "", &vec!["a: x".to_string(), "b: y".to_string()]),
        Err("a: x; b: y".to_string())
    );
    assert_eq!(
        unaccepted_import(Some(("C=1".to_string(), "9".to_string())), "1", &vec![]),
        Err(IMPORTED_USER_ID_REJECTED.to_string())
    );
    assert_eq!(
        unaccepted_import(Some(("C=1".to_string(), "9".to_string())), "", &vec![]),
        Ok(("C=1".to_string(), "9".to_string()))
    );
    assert_eq!(app_login_channel_id(" ", "UCsaved".to_string()), Ok("UCsaved".to_string()));
    assert!(app_login_channel_id("bad", String::new()).is_err());
    assert_eq!(longer_cookies("A=1".to_string(), "B=22".to_string()), "B=22");
    assert_eq!(longer_cookies("A=1".to_string(), "B=2".to_string()), "A=1");
}

#[test]
fn import_errors_name_the_browser() {
    assert_eq!(import_source_error("edge", Some("boom")), "edge: boom");
    assert_eq!(import_source_error("edge", None), "edge: cookies rejected by YouTube Music");
}

#[test]
fn import_steps_keep_the_first_rejected_cookies() {
    let mut progress = ImportProgress::new();
    let step = import_step(
        &mut progress,
        "firefox",
        ImportOutcome::Read { cookies: "SID=1".to_string(), user_id: "".to_string(), auth_user: None },
    );
    assert!(matches!(step, ImportStep::Next));
    let step = import_step(&mut progress, "chrome", ImportOutcome::Failed("no profile".to_string()));
    assert!(matches!(step, ImportStep::Next));
    let step = import_step(
        &mut progress,
        "brave",
        ImportOutcome::Read { cookies: "SID=2".to_string(), user_id: "".to_string(), auth_user: None },
    );
    assert!(matches!(step, ImportStep::Next));
    assert_eq!(progress.first, Some(("SID=1".to_string(), "".to_string())));
    assert_eq!(
        progress.errors,
        vec![
            "firefox: cookies rejected by YouTube Music".to_string(),
            "chrome: no profile".to_string(),
            "brave: cookies rejected by YouTube Music".to_string(),
        ]
    );
    match import_step(
        &mut progress,
        "edge",
        ImportOutcome::Read { cookies: "SID=3".to_string(), user_id: "u".to_string(), auth_user: Some(2) },
    ) {
        ImportStep::Save { cookies, user_id, auth_user } => {
            assert_eq!(cookies, "SID=3");
            assert_eq!(user_id, "u");
            assert_eq!(auth_user, 2);
        }
        ImportStep::Next => panic!("accepted cookies are saved"),
    }
}

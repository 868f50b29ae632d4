use yolite::http::{
    download_response_head, download_title, http_response_head, http_text, request_complete,
    retry_with_cookies, route_controller_request, route_stream_request, ControllerRoute,
    RemoteTrack, StreamRoute, STREAM_RESPONSE_HEAD,
};

fn stream(request: &str) -> String {
    match route_stream_request(request) {
        StreamRoute::Ignore => "ignore".to_string(),
        StreamRoute::MethodNotAllowed => "405".to_string(),
        StreamRoute::NotFound => "404".to_string(),
        StreamRoute::InvalidVideoId => "400".to_string(),
        StreamRoute::Stream { video_id, use_cookies } => format!("{video_id}:{use_cookies}"),
    }
}

fn controller(request: &str) -> String {
    match route_controller_request(request, "tok") {
        ControllerRoute::Ignore => "ignore".to_string(),
        ControllerRoute::Page => "page".to_string(),
        ControllerRoute::State => "state".to_string(),
        ControllerRoute::Control(a) => format!("control:{a}"),
        ControllerRoute::Download(id) => format!("download:{id}"),
        ControllerRoute::NotFound => "404".to_string(),
    }
}

#[test]
fn stream_requests_are_routed() {
    assert_eq!(stream(""), "ignore");
    assert_eq!(stream("POST /stream/abcdef12345 HTTP/1.1\r\n\r\n"), "405");
    assert_eq!(stream("GET\r\n"), "405");
    assert_eq!(stream("GET /other HTTP/1.1\r\n"), "404");
    assert_eq!(stream("GET /stream/abc HTTP/1.1\r\n"), "400");
    assert_eq!(stream("GET /stream/abcdef12345 HTTP/1.1\r\nHost: x\r\n\r\n"), "abcdef12345:false");
    assert_eq!(stream("GET /stream/abcdef12345?x=1&auth=1 HTTP/1.1\r\n"), "abcdef12345:true");
    assert_eq!(stream("  GET   /stream/abcdef12345?auth=10 HTTP/1.1"), "abcdef12345:false");
}

#[test]
fn controller_requests_need_the_token() {
    assert_eq!(controller("GET /controller/tok HTTP/1.1\r\n"), "page");
    assert_eq!(controller("GET /controller/tok?x HTTP/1.1\r\n"), "page");
    assert_eq!(controller("GET /controller/other HTTP/1.1\r\n"), "404");
    assert_eq!(controller("GET /api/state/tok HTTP/1.1\r\n"), "state");
    assert_eq!(controller("GET /api/control/tok/next HTTP/1.1\r\n"), "control:next");
    assert_eq!(controller("GET /api/control/tok/quit HTTP/1.1\r\n"), "404");
    assert_eq!(controller("GET /download/tok/abcdef12345 HTTP/1.1\r\n"), "download:abcdef12345");
    assert_eq!(controller("GET\r\n"), "ignore");
    assert_eq!(controller(""), "ignore");
}

#[test]
fn request_heads_end_with_a_blank_line() {
    assert!(request_complete(b"GET / HTTP/1.1\r\n\r\n"));
    assert!(!request_complete(b"GET / HTTP/1.1\r\n"));
    assert!(request_complete(&vec![b'a'; 8193]));
    assert!(!request_complete(&vec![b'a'; 8192]));
}

#[test]
fn responses_carry_their_length() {
    assert_eq!(
        http_text("404 Not Found", "Not found"),
        "HTTP/1.1 404 Not Found\r\ncontent-type: text/plain; charset=utf-8\r\ncontent-length: 9\r\ncache-control: no-store\r\naccess-control-allow-origin: *\r\n\r\nNot found"
    );
    assert!(http_text("200 OK", "é").contains("content-length: 2\r\n"));
    assert_eq!(
        http_response_head("204 No Content", "text/plain", 0),
        "HTTP/1.1 204 No Content\r\ncontent-type: text/plain\r\ncontent-length: 0\r\ncache-control: no-store\r\nconnection: close\r\n\r\n"
    );
    assert!(STREAM_RESPONSE_HEAD.starts_with("HTTP/1.1 200 OK\r\ncontent-type: audio/mp4"));
    assert!(download_response_head("Song").contains("filename=\"Song.m4a\""));
}

#[test]
fn downloads_are_named_after_the_playing_track() {
    let track = RemoteTrack {
        id: "abcdef12345".to_string(),
        title: "A/B song?".to_string(),
        artist: String::new(),
        thumbnail: String::new(),
    };
    assert_eq!(download_title(Some(&track), "abcdef12345"), "AB song");
    assert_eq!(download_title(Some(&track), "zzzzzzzzzzz"), "yolite-song");
    assert_eq!(download_title(None, "abcdef12345"), "yolite-song");
    assert!(retry_with_cookies(0, false));
    assert!(!retry_with_cookies(0, true));
    assert!(!retry_with_cookies(5, false));
}

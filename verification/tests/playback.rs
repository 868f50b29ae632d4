use std::sync::atomic::{AtomicU64, Ordering};

use yolite::clock::now_ms;
use yolite::stream::{
    cached_stream_url, fallback_url, native_playback_url, player_title, remember_stream_url, resolve_stream_url,
    stream_url_from_output, ytdlp_failure_message, ytdlp_resolve_args, ytdlp_stream_args,
    StreamCache, STREAM_CACHE_TTL_MS, YTDLP_AUDIO_FORMAT,
};

#[test]
fn test_native_playback_url_uses_cached_stream() {
    let mut cache = StreamCache::new();
    remember_stream_url(&mut cache, "abcdef12345", "https://stream.example/audio.m4a");
    let resolver_calls = AtomicU64::new(0);

    let url = native_playback_url(&mut cache, "abcdef12345", || {
        resolver_calls.fetch_add(1, Ordering::Relaxed);
        Err("resolver should not run".to_string())
    })
    .unwrap();

    assert_eq!(url, "https://stream.example/audio.m4a");
    assert_eq!(resolver_calls.load(Ordering::Relaxed), 0);
}

#[test]
fn test_native_playback_url_caches_resolved_stream() {
    let mut cache = StreamCache::new();

    let url = native_playback_url(&mut cache, "abcdef12345", || {
        Ok("https://stream.example/fresh.m4a".to_string())
    })
    .unwrap();

    assert_eq!(url, "https://stream.example/fresh.m4a");
    assert_eq!(
        cached_stream_url(&cache, "abcdef12345"),
        Some("https://stream.example/fresh.m4a".to_string())
    );
}

#[test]
fn failed_resolution_is_not_cached() {
    let mut cache = StreamCache::new();
    let result = native_playback_url(&mut cache, "abcdef12345", || Err("no stream".to_string()));
    assert_eq!(result, Err("no stream".to_string()));
    assert_eq!(cached_stream_url(&cache, "abcdef12345"), None);
}

#[test]
fn cache_entries_expire_and_replace() {
    let mut cache = StreamCache::new();
    cache.remember("abcdef12345", "https://a", 1000);
    assert_eq!(cache.lookup("abcdef12345", 1000), Some("https://a".to_string()));
    assert_eq!(cache.lookup("abcdef12345", 1000 + STREAM_CACHE_TTL_MS - 1), Some("https://a".to_string()));
    assert_eq!(cache.lookup("abcdef12345", 1000 + STREAM_CACHE_TTL_MS), None);
    assert_eq!(cache.lookup("other123456", 1000), None);
    cache.remember("abcdef12345", "", 2000);
    assert_eq!(cache.lookup("abcdef12345", 1000), Some("https://a".to_string()));
    cache.remember("abcdef12345", "https://b", 2000);
    assert_eq!(cache.lookup("abcdef12345", 1000 + STREAM_CACHE_TTL_MS), Some("https://b".to_string()));
    cache.remember("other123456", "https://c", 2000);
    assert_eq!(cache.lookup("abcdef12345", 2000), Some("https://b".to_string()));
    assert_eq!(STREAM_CACHE_TTL_MS, 2_700_000);
}

#[test]
fn clock_reads_milliseconds() {
    assert!(now_ms() > 1_600_000_000_000);
}

#[test]
fn stream_args_end_with_the_watch_page() {
    let args = ytdlp_stream_args("abcdef12345", None);
    assert_eq!(args.len(), 13);
    assert_eq!(args[0], "--format");
    assert_eq!(args[1], YTDLP_AUDIO_FORMAT);
    assert_eq!(args[5], "--output");
    assert_eq!(args[6], "-");
    assert_eq!(args[11], "--");
    assert_eq!(args[12], "https://www.youtube.com/watch?v=abcdef12345");
    let with_cookies = ytdlp_stream_args("abcdef12345", Some("/tmp/c.txt"));
    assert_eq!(with_cookies[11], "--cookies");
    assert_eq!(with_cookies[12], "/tmp/c.txt");
    assert_eq!(with_cookies.len(), 15);
}

#[test]
fn resolve_args_ask_for_the_address() {
    let args = ytdlp_resolve_args("abcdef12345", Some("/tmp/c.txt"));
    assert_eq!(args[5], "--get-url");
    assert_eq!(args[10], "--cookies");
    assert_eq!(args[11], "/tmp/c.txt");
    assert_eq!(args[12], "https://www.youtube.com/watch?v=abcdef12345");
    assert_eq!(args.len(), 13);
    assert_eq!(ytdlp_resolve_args("abcdef12345", None).len(), 11);
}

#[test]
fn stream_address_is_the_last_line() {
    assert_eq!(
        stream_url_from_output("https://a\n  https://b  \n"),
        Ok("https://b".to_string())
    );
    assert_eq!(stream_url_from_output(""), Err("No playable stream found".to_string()));
    assert_eq!(stream_url_from_output("x\n   \n"), Err("No playable stream found".to_string()));
    assert_eq!(ytdlp_failure_message("  \n"), "yt-dlp could not resolve a playable stream");
    assert_eq!(ytdlp_failure_message(" ERROR: private \n"), "ERROR: private");
}

#[test]
fn resolving_tries_cookies_second() {
    let calls = std::cell::RefCell::new(Vec::new());
    let r = resolve_stream_url(true, |with_cookies| {
        calls.borrow_mut().push(with_cookies);
        if with_cookies { Ok("https://c".to_string()) } else { Err("blocked".to_string()) }
    });
    assert_eq!(r, Ok(("https://c".to_string(), true)));
    assert_eq!(*calls.borrow(), vec![false, true]);

    let r = resolve_stream_url(true, |_| Err("nope".to_string()));
    assert_eq!(r, Err("yt-dlp failed without cookies: nope; with cookies: nope".to_string()));
    let r = resolve_stream_url(false, |_| Err("nope".to_string()));
    assert_eq!(r, Err("nope".to_string()));
    let r = resolve_stream_url(false, |_| Ok("https://a".to_string()));
    assert_eq!(r, Ok(("https://a".to_string(), false)));
}

#[test]
fn fallback_addresses() {
    assert_eq!(fallback_url(None, "abcdef12345", true), "");
    assert_eq!(
        fallback_url(Some("http://127.0.0.1:9"), "abcdef12345", false),
        "http://127.0.0.1:9/stream/abcdef12345"
    );
    assert_eq!(
        fallback_url(Some("http://127.0.0.1:9"), "abcdef12345", true),
        "http://127.0.0.1:9/stream/abcdef12345?auth=1"
    );
}

#[test]
fn player_titles() {
    assert_eq!(player_title(" Song ", "Band"), "Song  - Band");
    assert_eq!(player_title("Song", "  "), "Song");
    assert_eq!(player_title("  ", ""), "Yolite");
}

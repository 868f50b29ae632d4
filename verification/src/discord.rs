//! What the Discord "listening" presence shows for the current track.
use vstd::prelude::*;
use crate::ids::{spec_valid_video_id, valid_video_id};
use crate::text::{
    chars_of, push_str, starts_with, string_of, take_at_most, trim, trim_window, CharClass,
};
use crate::ytmusic::watch_url;

verus! {

/// The Discord application that the presence is shown for.
pub const DISCORD_APP_ID: &'static str = "1549900591088541827";

/// The most characters of a presence text.
pub const DISCORD_TEXT_CHARS: usize = 128;

/// `value` trimmed, or `fallback` where that leaves nothing; at most 128 characters of it.
pub open spec fn spec_discord_text(value: Seq<char>, fallback: Seq<char>) -> Seq<char> {
    let t = trim(value);
    take_at_most(if t.len() == 0 { fallback } else { t }, DISCORD_TEXT_CHARS as nat)
}

/// A text for the presence: `value` trimmed, or `fallback` where that is blank, cut to 128
/// characters.
pub fn discord_text(value: &str, fallback: &str) -> (r: String)
    ensures
        r@ == spec_discord_text(value@, fallback@),
{
    let v = chars_of(value);
    let (a, b) = trim_window(&v, 0, v.len(), &CharClass::Whitespace);
    assert(v@.subrange(0, v@.len() as int) =~= v@);
    if a < b {
        let end = if b - a > DISCORD_TEXT_CHARS { a + DISCORD_TEXT_CHARS } else { b };
        assert(v@.subrange(a as int, end as int) =~= take_at_most(trim(value@), DISCORD_TEXT_CHARS as nat));
        string_of(&v, a, end)
    } else {
        let f = chars_of(fallback);
        let end = if f.len() > DISCORD_TEXT_CHARS { DISCORD_TEXT_CHARS } else { f.len() };
        assert(f@.subrange(0, end as int) =~= take_at_most(fallback@, DISCORD_TEXT_CHARS as nat));
        string_of(&f, 0, end)
    }
}

/// What the presence shows.
pub struct DiscordPresence {
    /// The song.
    pub details: String,
    /// The artist, and whether the song is paused.
    pub state: String,
    /// The song's page on YouTube Music, where the video id is valid.
    pub track_url: Option<String>,
    /// The cover art, where it is a web address.
    pub large_image: Option<String>,
}

/// The state line before it is cut: `by <artist>`, or `Paused · <artist>`.
pub open spec fn status_line(artist: Seq<char>, paused: bool) -> Seq<char> {
    (if paused { "Paused · "@ } else { "by "@ }) + artist
}

/// The presence shows an image only from a web address.
pub open spec fn is_web_address(s: Seq<char>) -> bool {
    starts_with(s, "https://"@) || starts_with(s, "http://"@)
}

/// The presence for a track.
pub fn discord_presence(title: &str, artist: &str, video_id: &str, thumbnail: &str, paused: bool) -> (r: DiscordPresence)
    ensures
        r.details@ == spec_discord_text(title@, "Unknown song"@),
        r.state@ == spec_discord_text(
            status_line(spec_discord_text(artist@, "Unknown artist"@), paused),
            "Listening on Yolite"@,
        ),
        r.track_url matches Some(u) ==> spec_valid_video_id(video_id@) && u@ == watch_url(video_id@),
        r.track_url is None ==> !spec_valid_video_id(video_id@),
        r.large_image matches Some(i) ==> is_web_address(thumbnail@) && i@ == thumbnail@,
        r.large_image is None ==> !is_web_address(thumbnail@),
{
    let details = discord_text(title, "Unknown song");
    let who = discord_text(artist, "Unknown artist");
    let mut status = if paused { "Paused · ".to_owned() } else { "by ".to_owned() };
    push_str(&mut status, who.as_str());
    let state = discord_text(status.as_str(), "Listening on Yolite");
    let track_url = if valid_video_id(video_id) {
        let mut u = "https://music.youtube.com/watch?v=".to_owned();
        push_str(&mut u, video_id);
        Some(u)
    } else {
        None
    };
    let t = chars_of(thumbnail);
    assert(t@.subrange(0, t@.len() as int) =~= t@);
    let web = crate::text::window_starts_with(&t, 0, t.len(), "https://")
        || crate::text::window_starts_with(&t, 0, t.len(), "http://");
    let large_image = if web { Some(thumbnail.to_owned()) } else { None };
    DiscordPresence { details, state, track_url, large_image }
}

/// A presence text holds at most 128 characters, and is never empty where the fallback is
/// not.
pub proof fn lemma_discord_text_bounded(value: Seq<char>, fallback: Seq<char>)
    ensures
        spec_discord_text(value, fallback).len() <= DISCORD_TEXT_CHARS,
        fallback.len() > 0 ==> spec_discord_text(value, fallback).len() > 0,
{
}

} // verus!

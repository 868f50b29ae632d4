//! The values that the library hands to the interface.
use vstd::prelude::*;

verus! {

/// A playable track.
pub struct TrackPayload {
    pub id: String,
    pub kind: String,
    pub title: String,
    pub artist: String,
    pub artist_id: Option<String>,
    pub album: String,
    pub duration: u64,
    pub thumbnail: String,
    pub url: String,
    pub playlist_id: String,
    pub playlist_params: String,
}

/// The text of a track's fields.
pub ghost struct Track {
    pub id: Seq<char>,
    pub kind: Seq<char>,
    pub title: Seq<char>,
    pub artist: Seq<char>,
    pub artist_id: Option<Seq<char>>,
    pub album: Seq<char>,
    pub duration: u64,
    pub thumbnail: Seq<char>,
    pub url: Seq<char>,
    pub playlist_id: Seq<char>,
    pub playlist_params: Seq<char>,
}

pub open spec fn opt_view(o: Option<String>) -> Option<Seq<char>> {
    match o {
        Some(s) => Some(s@),
        None => None,
    }
}

impl View for TrackPayload {
    type V = Track;

    open spec fn view(&self) -> Track {
        Track {
            id: self.id@,
            kind: self.kind@,
            title: self.title@,
            artist: self.artist@,
            artist_id: opt_view(self.artist_id),
            album: self.album@,
            duration: self.duration,
            thumbnail: self.thumbnail@,
            url: self.url@,
            playlist_id: self.playlist_id@,
            playlist_params: self.playlist_params@,
        }
    }
}

/// A playlist.
pub struct PlaylistPayload {
    pub id: String,
    pub title: String,
    pub thumbnail: String,
    pub url: String,
}

pub ghost struct Playlist {
    pub id: Seq<char>,
    pub title: Seq<char>,
    pub thumbnail: Seq<char>,
    pub url: Seq<char>,
}

impl View for PlaylistPayload {
    type V = Playlist;

    open spec fn view(&self) -> Playlist {
        Playlist { id: self.id@, title: self.title@, thumbnail: self.thumbnail@, url: self.url@ }
    }
}

/// A titled shelf of tracks.
pub struct LibrarySectionPayload {
    pub title: String,
    pub tracks: Vec<TrackPayload>,
    pub layout: String,
}

pub open spec fn track_views(s: Seq<TrackPayload>) -> Seq<Track> {
    s.map_values(|t: TrackPayload| t@)
}

pub open spec fn playlist_views(s: Seq<PlaylistPayload>) -> Seq<Playlist> {
    s.map_values(|p: PlaylistPayload| p@)
}

pub proof fn lemma_track_views_push(s: Seq<TrackPayload>, t: TrackPayload)
    ensures
        track_views(s.push(t)) == track_views(s).push(t@),
{
    assert forall|j: int| 0 <= j < s.len() + 1 implies track_views(s.push(t))[j] == track_views(s).push(t@)[j] by {
        if j < s.len() {
            assert(track_views(s)[j] == s[j]@);
        }
    }
    assert(track_views(s.push(t)) =~= track_views(s).push(t@));
}

pub proof fn lemma_playlist_views_push(s: Seq<PlaylistPayload>, p: PlaylistPayload)
    ensures
        playlist_views(s.push(p)) == playlist_views(s).push(p@),
{
    assert forall|j: int| 0 <= j < s.len() + 1 implies playlist_views(s.push(p))[j] == playlist_views(s).push(p@)[j] by {
        if j < s.len() {
            assert(playlist_views(s)[j] == s[j]@);
        }
    }
    assert(playlist_views(s.push(p)) =~= playlist_views(s).push(p@));
}

pub proof fn lemma_playlist_views_append(a: Seq<PlaylistPayload>, b: Seq<PlaylistPayload>)
    ensures
        playlist_views(a + b) == playlist_views(a) + playlist_views(b),
{
    assert forall|j: int| 0 <= j < a.len() + b.len() implies playlist_views(a + b)[j] == (playlist_views(a) + playlist_views(b))[j] by {
        if j < a.len() {
            assert(playlist_views(a)[j] == a[j]@);
        } else {
            assert(playlist_views(b)[j - a.len()] == b[j - a.len()]@);
        }
    }
    assert(playlist_views(a + b) =~= playlist_views(a) + playlist_views(b));
}

} // verus!
